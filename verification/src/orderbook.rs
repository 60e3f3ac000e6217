//! The limit order book of one market: resting bids and asks grouped by
//! price level, price-time priority matching, depth, open orders and
//! cancellation.
//!
//! Prices and quantities are whole numbers of the market's smallest units.

use std::collections::BTreeMap;
use std::collections::HashMap;
use vstd::prelude::*;

use crate::price_ladder::ascending_keys;
use crate::price_ladder::descending_keys;
use crate::decimal::decimal_string;
use vstd::string::StringExecFns;

verus! {

broadcast use vstd::std_specs::btree::group_btree_axioms;

/// A price, in the market's smallest price unit.
pub type Price = u64;

/// Which side of the book an order rests on.
#[derive(Debug, Clone, Copy, PartialEq, Eq, Structural)]
pub enum OrderSide {
    Buy,
    Sell,
}

/// A limit order. `filled` is how much of `quantity` has traded so far.
#[derive(Debug)]
pub struct Order {
    pub price: u64,
    pub quantity: u64,
    pub order_id: String,
    pub filled: u64,
    pub side: OrderSide,
    pub user_id: String,
}

impl Clone for Order {
    fn clone(&self) -> (r: Self)
        ensures
            r == *self,
    {
        Order {
            price: self.price,
            quantity: self.quantity,
            order_id: self.order_id.clone(),
            filled: self.filled,
            side: self.side,
            user_id: self.user_id.clone(),
        }
    }
}

/// One trade against a resting order: `marker_order_id` and `other_user_id`
/// name the resting order and its owner, `price` is that order's level.
#[derive(Debug)]
pub struct Fill {
    pub qty: u64,
    pub price: u64,
    pub trade_id: i64,
    pub marker_order_id: String,
    pub other_user_id: String,
}

/// Aggregated depth: one `(price, open quantity)` row per non-empty level,
/// both written in decimal; bids highest price first, asks lowest first.
#[derive(Debug)]
pub struct OrderbookSnapshot {
    pub bids: Vec<(String, String)>,
    pub asks: Vec<(String, String)>,
}

/// The order book of one market.
#[derive(Debug)]
pub struct Orderbook {
    market: String,
    pub bids: BTreeMap<Price, Vec<Order>>,
    pub asks: BTreeMap<Price, Vec<Order>>,
    last_trade_id: i64,
    current_price: u64,
    orders: HashMap<String, Order>,
}

// ---------------------------------------------------------------------------
// The model
// ---------------------------------------------------------------------------

/// An order still has quantity to trade.
pub open spec fn is_open(o: Order) -> bool {
    o.filled < o.quantity
}

/// The quantity still open on `o` (negative if it was overfilled).
pub open spec fn open_qty(o: Order) -> int {
    o.quantity - o.filled
}

/// `o` with its filled quantity replaced.
pub open spec fn with_filled(o: Order, filled: u64) -> Order {
    Order {
        price: o.price,
        quantity: o.quantity,
        order_id: o.order_id,
        filled,
        side: o.side,
        user_id: o.user_id,
    }
}

/// What is traded against the open order `o` when `need` is still wanted.
pub open spec fn take_qty(need: nat, o: Order) -> nat {
    if need <= open_qty(o) {
        need
    } else {
        open_qty(o) as nat
    }
}

/// The fill recorded for a trade of `qty` against the resting order `o`.
pub open spec fn fill_of(o: Order, price: u64, qty: nat, trade_id: int) -> Fill {
    Fill {
        qty: qty as u64,
        price,
        trade_id: trade_id as i64,
        marker_order_id: o.order_id,
        other_user_id: o.user_id,
    }
}

/// Sweeping one price level in time priority for a taker of user `taker`
/// that still wants `need`: the level afterwards, the fills (trade ids
/// counting up from `next_id`) and the quantity traded. Orders of the taker's
/// own user and orders with nothing open are passed over.
pub open spec fn sweep_level(level: Seq<Order>, price: u64, taker: Seq<char>, need: nat, next_id: int) -> (
    Seq<Order>,
    Seq<Fill>,
    nat,
)
    decreases level.len(),
{
    if level.len() == 0 || need == 0 {
        (level, Seq::empty(), 0)
    } else {
        let o = level[0];
        if o.user_id@ == taker || !is_open(o) {
            let r = sweep_level(level.drop_first(), price, taker, need, next_id);
            (seq![o] + r.0, r.1, r.2)
        } else {
            let q = take_qty(need, o);
            let r = sweep_level(level.drop_first(), price, taker, (need - q) as nat, next_id + 1);
            (
                seq![with_filled(o, (o.filled + q) as u64)] + r.0,
                seq![fill_of(o, price, q, next_id)] + r.1,
                q + r.2,
            )
        }
    }
}

/// The price of a level is acceptable to a taker with limit `limit`:
/// a buyer takes asks at or below it, a seller takes bids at or above it.
pub open spec fn crosses(price: u64, limit: u64, taker_buys: bool) -> bool {
    if taker_buys {
        price <= limit
    } else {
        price >= limit
    }
}

/// Sweeping the levels `prices` of `book`, in that order.
pub open spec fn sweep_book(
    book: Map<u64, Seq<Order>>,
    prices: Seq<u64>,
    limit: u64,
    taker_buys: bool,
    taker: Seq<char>,
    need: nat,
    next_id: int,
) -> (Map<u64, Seq<Order>>, Seq<Fill>, nat)
    decreases prices.len(),
{
    if prices.len() == 0 {
        (book, Seq::empty(), 0)
    } else {
        let p = prices[0];
        if crosses(p, limit, taker_buys) && need > 0 {
            let l = sweep_level(book[p], p, taker, need, next_id);
            let r = sweep_book(
                book.insert(p, l.0),
                prices.drop_first(),
                limit,
                taker_buys,
                taker,
                (need - l.2) as nat,
                next_id + l.1.len(),
            );
            (r.0, l.1 + r.1, l.2 + r.2)
        } else {
            sweep_book(book, prices.drop_first(), limit, taker_buys, taker, need, next_id)
        }
    }
}

/// The orders of a level that are still open, in order.
pub open spec fn open_part(level: Seq<Order>) -> Seq<Order>
    decreases level.len(),
{
    if level.len() == 0 {
        level
    } else if is_open(level.last()) {
        open_part(level.drop_last()).push(level.last())
    } else {
        open_part(level.drop_last())
    }
}

/// A book side with filled orders dropped and emptied levels removed.
pub open spec fn prune(book: Map<u64, Seq<Order>>) -> Map<u64, Seq<Order>> {
    Map::new(
        |p: u64| book.contains_key(p) && open_part(book[p]).len() > 0,
        |p: u64| open_part(book[p]),
    )
}

/// The levels of a book side, each as the sequence of its orders.
pub open spec fn levels(m: BTreeMap<u64, Vec<Order>>) -> Map<u64, Seq<Order>> {
    m@.map_values(|v: Vec<Order>| v@)
}

/// Every order of a side rests at its own price, belongs to that side and
/// is still open.
pub open spec fn side_wf(book: Map<u64, Seq<Order>>, side: OrderSide) -> bool {
    forall|p: u64, i: int|
        #![trigger book[p][i]]
        book.contains_key(p) && 0 <= i < book[p].len() ==> {
            &&& book[p][i].price == p
            &&& book[p][i].side == side
            &&& is_open(book[p][i])
        }
}

/// Every order of a side rests at its own price and belongs to that side.
pub open spec fn side_shape(book: Map<u64, Seq<Order>>, side: OrderSide) -> bool {
    forall|p: u64, i: int|
        #![trigger book[p][i]]
        book.contains_key(p) && 0 <= i < book[p].len() ==> {
            &&& book[p][i].price == p
            &&& book[p][i].side == side
        }
}

/// The side a resting order joins: unless it traded in full, it is appended
/// to the level of its price, which is created if missing.
pub open spec fn rest_order(book: Map<u64, Seq<Order>>, o: Order) -> Map<u64, Seq<Order>> {
    if o.filled == o.quantity {
        book
    } else if book.contains_key(o.price) {
        book.insert(o.price, book[o.price].push(o))
    } else {
        book.insert(o.price, seq![o])
    }
}

/// The total quantity of a sequence of fills.
pub open spec fn fills_total(fills: Seq<Fill>) -> int
    decreases fills.len(),
{
    if fills.len() == 0 {
        0
    } else {
        fills[0].qty + fills_total(fills.drop_first())
    }
}

/// The open quantity of a level: the sum of what is open on its orders.
pub open spec fn level_total(level: Seq<Order>) -> int
    decreases level.len(),
{
    if level.len() == 0 {
        0
    } else {
        level_total(level.drop_last()) + open_qty(level.last())
    }
}

/// Depth rows of the levels `prices` of `book`, in that order: each level
/// with a positive open quantity gives `(price, open quantity)` in decimal.
pub open spec fn depth_rows(book: Map<u64, Seq<Order>>, prices: Seq<u64>) -> Seq<(Seq<char>, Seq<char>)>
    decreases prices.len(),
{
    if prices.len() == 0 {
        Seq::empty()
    } else {
        let rest = depth_rows(book, prices.drop_last());
        let p = prices.last();
        let t = level_total(book[p]);
        if t > 0 {
            rest.push((crate::decimal::decimal(p as nat), crate::decimal::decimal(t as nat)))
        } else {
            rest
        }
    }
}

/// Depth rows as their text.
pub open spec fn rows_view(rows: Seq<(String, String)>) -> Seq<(Seq<char>, Seq<char>)> {
    rows.map_values(|r: (String, String)| (r.0@, r.1@))
}

/// The open orders of user `user` in a level, in order.
pub open spec fn user_open_in_level(level: Seq<Order>, user: Seq<char>) -> Seq<Order>
    decreases level.len(),
{
    if level.len() == 0 {
        level
    } else {
        let rest = user_open_in_level(level.drop_last(), user);
        let o = level.last();
        if o.user_id@ == user && is_open(o) {
            rest.push(o)
        } else {
            rest
        }
    }
}

/// The open orders of user `user` in the levels `prices` of `book`, level by level.
pub open spec fn user_open_in_book(book: Map<u64, Seq<Order>>, prices: Seq<u64>, user: Seq<char>) -> Seq<Order>
    decreases prices.len(),
{
    if prices.len() == 0 {
        Seq::empty()
    } else {
        user_open_in_book(book, prices.drop_last(), user) + user_open_in_level(book[prices.last()], user)
    }
}

/// A level holds an order with id `id`.
pub open spec fn holds_order(level: Seq<Order>, id: Seq<char>) -> bool {
    exists|i: int| 0 <= i < level.len() && (#[trigger] level[i]).order_id@ == id
}

/// The first of the levels `prices` of `book` that holds an order with id `id`.
pub open spec fn first_level_holding(book: Map<u64, Seq<Order>>, prices: Seq<u64>, id: Seq<char>) -> Option<u64>
    decreases prices.len(),
{
    if prices.len() == 0 {
        None
    } else if holds_order(book[prices[0]], id) {
        Some(prices[0])
    } else {
        first_level_holding(book, prices.drop_first(), id)
    }
}

/// A level without its orders of id `id`.
pub open spec fn without_order(level: Seq<Order>, id: Seq<char>) -> Seq<Order>
    decreases level.len(),
{
    if level.len() == 0 {
        level
    } else {
        let rest = without_order(level.drop_last(), id);
        if level.last().order_id@ == id {
            rest
        } else {
            rest.push(level.last())
        }
    }
}

/// A side after its orders of id `id` are cancelled at the level of price
/// `p`: the level without them, or no level at all when none is left.
pub open spec fn cancel_level(book: Map<u64, Seq<Order>>, p: u64, id: Seq<char>) -> Map<u64, Seq<Order>> {
    if without_order(book[p], id).len() == 0 {
        book.remove(p)
    } else {
        book.insert(p, without_order(book[p], id))
    }
}

/// No level of a side is empty.
pub open spec fn levels_nonempty(book: Map<u64, Seq<Order>>) -> bool {
    forall|p: u64| #[trigger] book.contains_key(p) ==> book[p].len() > 0
}

// ---------------------------------------------------------------------------
// Lemmas on the model
// ---------------------------------------------------------------------------

/// The levels of a side are keyed by the side's prices.
broadcast proof fn lemma_levels_dom(m: BTreeMap<u64, Vec<Order>>)
    ensures
        #[trigger] levels(m).dom() == m@.dom(),
{
    assert(levels(m).dom() =~= m@.dom());
}

/// Sweeping a level keeps every order where it was, changing only how much
/// of it is filled.
proof fn lemma_sweep_level_shape(level: Seq<Order>, price: u64, taker: Seq<char>, need: nat, next_id: int)
    ensures
        ({
            let r = sweep_level(level, price, taker, need, next_id);
            &&& r.0.len() == level.len()
            &&& forall|i: int|
                0 <= i < level.len() ==> {
                    &&& (#[trigger] r.0[i]).price == level[i].price
                    &&& r.0[i].side == level[i].side
                    &&& r.0[i].quantity == level[i].quantity
                    &&& r.0[i].order_id == level[i].order_id
                    &&& r.0[i].user_id == level[i].user_id
                }
        }),
    decreases level.len(),
{
    if level.len() == 0 || need == 0 {
    } else {
        let o = level[0];
        let r = sweep_level(level, price, taker, need, next_id);
        if o.user_id@ == taker || !is_open(o) {
            let t = sweep_level(level.drop_first(), price, taker, need, next_id);
            lemma_sweep_level_shape(level.drop_first(), price, taker, need, next_id);
            assert forall|i: int| 0 < i < level.len() implies (#[trigger] r.0[i]).price == level[i].price
                && r.0[i].side == level[i].side && r.0[i].quantity == level[i].quantity
                && r.0[i].order_id == level[i].order_id && r.0[i].user_id == level[i].user_id by {
                assert(r.0[i] == t.0[i - 1]);
                assert(level.drop_first()[i - 1] == level[i]);
            }
        } else {
            let q = take_qty(need, o);
            let t = sweep_level(level.drop_first(), price, taker, (need - q) as nat, next_id + 1);
            lemma_sweep_level_shape(level.drop_first(), price, taker, (need - q) as nat, next_id + 1);
            assert forall|i: int| 0 < i < level.len() implies (#[trigger] r.0[i]).price == level[i].price
                && r.0[i].side == level[i].side && r.0[i].quantity == level[i].quantity
                && r.0[i].order_id == level[i].order_id && r.0[i].user_id == level[i].user_id by {
                assert(r.0[i] == t.0[i - 1]);
                assert(level.drop_first()[i - 1] == level[i]);
            }
        }
    }
}

/// Sweeping the levels of a side keeps its prices and the shape of every level.
proof fn lemma_sweep_book_shape(
    book: Map<u64, Seq<Order>>,
    prices: Seq<u64>,
    limit: u64,
    taker_buys: bool,
    taker: Seq<char>,
    need: nat,
    next_id: int,
    side: OrderSide,
)
    requires
        forall|i: int| 0 <= i < prices.len() ==> book.contains_key(#[trigger] prices[i]),
        side_shape(book, side),
    ensures
        ({
            let r = sweep_book(book, prices, limit, taker_buys, taker, need, next_id);
            &&& r.0.dom() == book.dom()
            &&& side_shape(r.0, side)
        }),
    decreases prices.len(),
{
    if prices.len() > 0 {
        let p = prices[0];
        assert(book.contains_key(p));
        if crosses(p, limit, taker_buys) && need > 0 {
            let l = sweep_level(book[p], p, taker, need, next_id);
            lemma_sweep_level_shape(book[p], p, taker, need, next_id);
            let b2 = book.insert(p, l.0);
            assert(b2.dom() =~= book.dom());
            assert(side_shape(b2, side)) by {
                assert forall|k: u64, i: int| b2.contains_key(k) && 0 <= i < b2[k].len() implies {
                    &&& b2[k][i].price == k
                    &&& b2[k][i].side == side
                } by {
                    if k == p {
                        assert(b2[k] == l.0);
                        assert(l.0[i].price == book[p][i].price);
                        assert(l.0[i].side == book[p][i].side);
                        assert(book[p][i].price == p);
                    } else {
                        assert(b2[k] == book[k]);
                        assert(book[k][i].price == k);
                    }
                }
            }
            assert forall|i: int| 0 <= i < prices.drop_first().len() implies b2.contains_key(
                #[trigger] prices.drop_first()[i],
            ) by {
                assert(prices.drop_first()[i] == prices[i + 1]);
            }
            lemma_sweep_book_shape(
                b2,
                prices.drop_first(),
                limit,
                taker_buys,
                taker,
                (need - l.2) as nat,
                next_id + l.1.len(),
                side,
            );
        } else {
            assert forall|i: int| 0 <= i < prices.drop_first().len() implies book.contains_key(
                #[trigger] prices.drop_first()[i],
            ) by {
                assert(prices.drop_first()[i] == prices[i + 1]);
            }
            lemma_sweep_book_shape(book, prices.drop_first(), limit, taker_buys, taker, need, next_id, side);
        }
    }
}

/// The open part of a level holds only open orders taken from the level.
proof fn lemma_open_part_elems(level: Seq<Order>)
    ensures
        forall|i: int|
            0 <= i < open_part(level).len() ==> is_open(#[trigger] open_part(level)[i])
                && level.contains(open_part(level)[i]),
    decreases level.len(),
{
    if level.len() > 0 {
        let d = level.drop_last();
        lemma_open_part_elems(d);
        assert forall|i: int| 0 <= i < open_part(level).len() implies is_open(
            #[trigger] open_part(level)[i],
        ) && level.contains(open_part(level)[i]) by {
            if i < open_part(d).len() {
                assert(open_part(level)[i] == open_part(d)[i]);
                let j = choose|j: int| 0 <= j < d.len() && d[j] == open_part(d)[i];
                assert(level[j] == d[j]);
            } else {
                assert(open_part(level)[i] == level.last());
                assert(level[level.len() - 1] == level.last());
            }
        }
    }
}

/// Pruning a side whose orders rest at their prices leaves a well-formed side.
proof fn lemma_prune_wf(book: Map<u64, Seq<Order>>, side: OrderSide)
    requires
        side_shape(book, side),
    ensures
        side_wf(prune(book), side),
{
    let pb = prune(book);
    assert forall|p: u64, i: int| pb.contains_key(p) && 0 <= i < pb[p].len() implies {
        &&& pb[p][i].price == p
        &&& pb[p][i].side == side
        &&& is_open(pb[p][i])
    } by {
        lemma_open_part_elems(book[p]);
        assert(pb[p] == open_part(book[p]));
        let j = choose|j: int| 0 <= j < book[p].len() && book[p][j] == open_part(book[p])[i];
        assert(book[p][j].price == p);
    }
}

/// A level sweep trades at most what is wanted, keeps the level's length,
/// and each fill trades at least one unit.
proof fn lemma_sweep_level_bounds(level: Seq<Order>, price: u64, taker: Seq<char>, need: nat, next_id: int)
    ensures
        ({
            let r = sweep_level(level, price, taker, need, next_id);
            &&& r.2 <= need
            &&& r.0.len() == level.len()
            &&& r.1.len() <= r.2
            &&& r.1.len() <= level.len()
        }),
    decreases level.len(),
{
    if level.len() == 0 || need == 0 {
    } else {
        let o = level[0];
        if o.user_id@ == taker || !is_open(o) {
            lemma_sweep_level_bounds(level.drop_first(), price, taker, need, next_id);
        } else {
            let q = take_qty(need, o);
            lemma_sweep_level_bounds(level.drop_first(), price, taker, (need - q) as nat, next_id + 1);
        }
    }
}

/// One step of a level sweep, seen from position `i` of the level.
proof fn lemma_sweep_level_step(level: Seq<Order>, i: int, price: u64, taker: Seq<char>, need: nat, next_id: int)
    requires
        0 <= i < level.len(),
    ensures
        ({
            let s = level.skip(i);
            let o = level[i];
            let r = sweep_level(s, price, taker, need, next_id);
            if need == 0 {
                r == (s, Seq::<Fill>::empty(), 0nat)
            } else if o.user_id@ == taker || !is_open(o) {
                let t = sweep_level(level.skip(i + 1), price, taker, need, next_id);
                r == (seq![o] + t.0, t.1, t.2)
            } else {
                let q = take_qty(need, o);
                let t = sweep_level(level.skip(i + 1), price, taker, (need - q) as nat, next_id + 1);
                r == (
                    seq![with_filled(o, (o.filled + q) as u64)] + t.0,
                    seq![fill_of(o, price, q, next_id)] + t.1,
                    q + t.2,
                )
            }
        }),
{
    let s = level.skip(i);
    assert(s.len() > 0);
    assert(s[0] == level[i]);
    assert(s.drop_first() =~= level.skip(i + 1));
}

/// One step of a book sweep, seen from position `i` of the price list.
proof fn lemma_sweep_book_step(
    book: Map<u64, Seq<Order>>,
    prices: Seq<u64>,
    i: int,
    limit: u64,
    taker_buys: bool,
    taker: Seq<char>,
    need: nat,
    next_id: int,
)
    requires
        0 <= i < prices.len(),
    ensures
        ({
            let s = prices.skip(i);
            let p = prices[i];
            let r = sweep_book(book, s, limit, taker_buys, taker, need, next_id);
            if crosses(p, limit, taker_buys) && need > 0 {
                let l = sweep_level(book[p], p, taker, need, next_id);
                let t = sweep_book(
                    book.insert(p, l.0),
                    prices.skip(i + 1),
                    limit,
                    taker_buys,
                    taker,
                    (need - l.2) as nat,
                    next_id + l.1.len(),
                );
                r == (t.0, l.1 + t.1, l.2 + t.2)
            } else {
                r == sweep_book(book, prices.skip(i + 1), limit, taker_buys, taker, need, next_id)
            }
        }),
{
    let s = prices.skip(i);
    assert(s[0] == prices[i]);
    assert(s.drop_first() =~= prices.skip(i + 1));
}

/// A book sweep trades at most what is wanted and records at most one fill
/// per unit traded.
proof fn lemma_sweep_book_bounds(
    book: Map<u64, Seq<Order>>,
    prices: Seq<u64>,
    limit: u64,
    taker_buys: bool,
    taker: Seq<char>,
    need: nat,
    next_id: int,
)
    ensures
        ({
            let r = sweep_book(book, prices, limit, taker_buys, taker, need, next_id);
            &&& r.2 <= need
            &&& r.1.len() <= r.2
        }),
    decreases prices.len(),
{
    if prices.len() > 0 {
        let p = prices[0];
        if crosses(p, limit, taker_buys) && need > 0 {
            let l = sweep_level(book[p], p, taker, need, next_id);
            lemma_sweep_level_bounds(book[p], p, taker, need, next_id);
            lemma_sweep_book_bounds(
                book.insert(p, l.0),
                prices.drop_first(),
                limit,
                taker_buys,
                taker,
                (need - l.2) as nat,
                next_id + l.1.len(),
            );
        } else {
            lemma_sweep_book_bounds(book, prices.drop_first(), limit, taker_buys, taker, need, next_id);
        }
    }
}

/// The open part of a level extended by one order.
proof fn lemma_open_part_step(level: Seq<Order>, i: int)
    requires
        0 <= i < level.len(),
    ensures
        open_part(level.take(i + 1)) == if is_open(level[i]) {
            open_part(level.take(i)).push(level[i])
        } else {
            open_part(level.take(i))
        },
{
    let t = level.take(i + 1);
    assert(t.drop_last() =~= level.take(i));
    assert(t.last() == level[i]);
}

// ---------------------------------------------------------------------------
// Laws of matching
// ---------------------------------------------------------------------------

/// The total of two runs of fills is the sum of their totals.
proof fn lemma_fills_total_concat(a: Seq<Fill>, b: Seq<Fill>)
    ensures
        fills_total(a + b) == fills_total(a) + fills_total(b),
    decreases a.len(),
{
    if a.len() == 0 {
        assert(a + b =~= b);
    } else {
        assert((a + b).drop_first() =~= a.drop_first() + b);
        lemma_fills_total_concat(a.drop_first(), b);
    }
}

/// Sweeping a level: every fill trades at the level's price, at least one
/// unit, against an order of another user, with trade ids counting up from
/// `next_id`; the fills add up to the quantity traded; and if less than
/// `need` was traded, every order of another user in the level is left
/// with nothing open.
proof fn lemma_sweep_level_fills(level: Seq<Order>, price: u64, taker: Seq<char>, need: nat, next_id: int)
    ensures
        ({
            let r = sweep_level(level, price, taker, need, next_id);
            &&& forall|k: int|
                0 <= k < r.1.len() ==> {
                    &&& (#[trigger] r.1[k]).price == price
                    &&& r.1[k].qty >= 1
                    &&& r.1[k].other_user_id@ != taker
                    &&& r.1[k].trade_id == (next_id + k) as i64
                }
            &&& fills_total(r.1) == r.2
            &&& r.2 < need ==> forall|i: int|
                0 <= i < level.len() && level[i].user_id@ != taker ==> !is_open(#[trigger] r.0[i])
        }),
    decreases level.len(),
{
    let r = sweep_level(level, price, taker, need, next_id);
    if level.len() == 0 || need == 0 {
    } else {
        let o = level[0];
        if o.user_id@ == taker || !is_open(o) {
            let t = sweep_level(level.drop_first(), price, taker, need, next_id);
            lemma_sweep_level_fills(level.drop_first(), price, taker, need, next_id);
            lemma_sweep_level_bounds(level.drop_first(), price, taker, need, next_id);
            if r.2 < need {
                assert forall|i: int| 0 <= i < level.len() && level[i].user_id@ != taker implies !is_open(
                    #[trigger] r.0[i],
                ) by {
                    if i > 0 {
                        assert(r.0[i] == t.0[i - 1]);
                        assert(level.drop_first()[i - 1] == level[i]);
                    }
                }
            }
        } else {
            let q = take_qty(need, o);
            let t = sweep_level(level.drop_first(), price, taker, (need - q) as nat, next_id + 1);
            lemma_sweep_level_fills(level.drop_first(), price, taker, (need - q) as nat, next_id + 1);
            lemma_sweep_level_bounds(level.drop_first(), price, taker, (need - q) as nat, next_id + 1);
            assert forall|k: int| 0 <= k < r.1.len() implies {
                &&& (#[trigger] r.1[k]).price == price
                &&& r.1[k].qty >= 1
                &&& r.1[k].other_user_id@ != taker
                &&& r.1[k].trade_id == (next_id + k) as i64
            } by {
                if k > 0 {
                    assert(r.1[k] == t.1[k - 1]);
                }
            }
            assert(r.1.drop_first() =~= t.1);
            if r.2 < need {
                assert(q == open_qty(o));
                assert forall|i: int| 0 <= i < level.len() && level[i].user_id@ != taker implies !is_open(
                    #[trigger] r.0[i],
                ) by {
                    if i > 0 {
                        assert(r.0[i] == t.0[i - 1]);
                        assert(level.drop_first()[i - 1] == level[i]);
                    }
                }
            }
        }
    }
}

/// Sweeping levels leaves the levels it does not visit as they were.
proof fn lemma_sweep_book_frame(
    book: Map<u64, Seq<Order>>,
    prices: Seq<u64>,
    limit: u64,
    taker_buys: bool,
    taker: Seq<char>,
    need: nat,
    next_id: int,
    q: u64,
)
    requires
        !prices.contains(q),
    ensures
        ({
            let r = sweep_book(book, prices, limit, taker_buys, taker, need, next_id);
            &&& r.0.contains_key(q) == book.contains_key(q)
            &&& book.contains_key(q) ==> r.0[q] == book[q]
        }),
    decreases prices.len(),
{
    if prices.len() > 0 {
        let p = prices[0];
        assert(p != q);
        assert forall|x: u64| prices.drop_first().contains(x) implies prices.contains(x) by {
            let j = choose|j: int| 0 <= j < prices.drop_first().len() && prices.drop_first()[j] == x;
            assert(prices[j + 1] == x);
        }
        if crosses(p, limit, taker_buys) && need > 0 {
            let l = sweep_level(book[p], p, taker, need, next_id);
            lemma_sweep_book_frame(
                book.insert(p, l.0),
                prices.drop_first(),
                limit,
                taker_buys,
                taker,
                (need - l.2) as nat,
                next_id + l.1.len(),
                q,
            );
        } else {
            lemma_sweep_book_frame(book, prices.drop_first(), limit, taker_buys, taker, need, next_id, q);
        }
    }
}

/// Sweeping levels: every fill trades at one of the swept prices that the
/// limit accepts, at least one unit, against an order of another user, with
/// trade ids counting up from `next_id`; the fills add up to the quantity
/// traded; and when the prices are listed best first, the fills come best
/// price first.
proof fn lemma_sweep_book_fills(
    book: Map<u64, Seq<Order>>,
    prices: Seq<u64>,
    limit: u64,
    taker_buys: bool,
    taker: Seq<char>,
    need: nat,
    next_id: int,
)
    ensures
        ({
            let r = sweep_book(book, prices, limit, taker_buys, taker, need, next_id);
            &&& forall|k: int|
                0 <= k < r.1.len() ==> {
                    &&& crosses((#[trigger] r.1[k]).price, limit, taker_buys)
                    &&& prices.contains(r.1[k].price)
                    &&& r.1[k].qty >= 1
                    &&& r.1[k].other_user_id@ != taker
                    &&& r.1[k].trade_id == (next_id + k) as i64
                }
            &&& fills_total(r.1) == r.2
            &&& (forall|i: int, j: int| 0 <= i < j < prices.len() ==> prices[i] < prices[j]) ==> forall|
                a: int,
                b: int,
            | 0 <= a < b < r.1.len() ==> r.1[a].price <= r.1[b].price
            &&& (forall|i: int, j: int| 0 <= i < j < prices.len() ==> prices[i] > prices[j]) ==> forall|
                a: int,
                b: int,
            | 0 <= a < b < r.1.len() ==> r.1[a].price >= r.1[b].price
        }),
    decreases prices.len(),
{
    let r = sweep_book(book, prices, limit, taker_buys, taker, need, next_id);
    if prices.len() == 0 {
    } else {
        let p = prices[0];
        let rest = prices.drop_first();
        assert forall|x: u64| rest.contains(x) implies prices.contains(x) by {
            let j = choose|j: int| 0 <= j < rest.len() && rest[j] == x;
            assert(prices[j + 1] == x);
        }
        if crosses(p, limit, taker_buys) && need > 0 {
            let l = sweep_level(book[p], p, taker, need, next_id);
            let t = sweep_book(
                book.insert(p, l.0),
                rest,
                limit,
                taker_buys,
                taker,
                (need - l.2) as nat,
                next_id + l.1.len(),
            );
            lemma_sweep_level_fills(book[p], p, taker, need, next_id);
            lemma_sweep_book_fills(
                book.insert(p, l.0),
                rest,
                limit,
                taker_buys,
                taker,
                (need - l.2) as nat,
                next_id + l.1.len(),
            );
            lemma_fills_total_concat(l.1, t.1);
            assert(prices[0] == p);
            assert forall|k: int| 0 <= k < r.1.len() implies {
                &&& crosses((#[trigger] r.1[k]).price, limit, taker_buys)
                &&& prices.contains(r.1[k].price)
                &&& r.1[k].qty >= 1
                &&& r.1[k].other_user_id@ != taker
                &&& r.1[k].trade_id == (next_id + k) as i64
            } by {
                if k < l.1.len() {
                    assert(r.1[k] == l.1[k]);
                } else {
                    assert(r.1[k] == t.1[k - l.1.len()]);
                }
            }
            if forall|i: int, j: int| 0 <= i < j < prices.len() ==> prices[i] < prices[j] {
                assert forall|i: int, j: int| 0 <= i < j < rest.len() implies rest[i] < rest[j] by {
                    assert(rest[i] == prices[i + 1]);
                    assert(rest[j] == prices[j + 1]);
                }
                assert forall|a: int, b: int| 0 <= a < b < r.1.len() implies r.1[a].price <= r.1[b].price by {
                    if b >= l.1.len() {
                        let tb = t.1[b - l.1.len()];
                        assert(r.1[b] == tb);
                        assert(rest.contains(tb.price));
                        let j = choose|j: int| 0 <= j < rest.len() && rest[j] == tb.price;
                        assert(prices[j + 1] == tb.price);
                        if a < l.1.len() {
                            assert(r.1[a] == l.1[a]);
                        } else {
                            assert(r.1[a] == t.1[a - l.1.len()]);
                        }
                    } else {
                        assert(r.1[a] == l.1[a]);
                        assert(r.1[b] == l.1[b]);
                    }
                }
            }
            if forall|i: int, j: int| 0 <= i < j < prices.len() ==> prices[i] > prices[j] {
                assert forall|i: int, j: int| 0 <= i < j < rest.len() implies rest[i] > rest[j] by {
                    assert(rest[i] == prices[i + 1]);
                    assert(rest[j] == prices[j + 1]);
                }
                assert forall|a: int, b: int| 0 <= a < b < r.1.len() implies r.1[a].price >= r.1[b].price by {
                    if b >= l.1.len() {
                        let tb = t.1[b - l.1.len()];
                        assert(r.1[b] == tb);
                        assert(rest.contains(tb.price));
                        let j = choose|j: int| 0 <= j < rest.len() && rest[j] == tb.price;
                        assert(prices[j + 1] == tb.price);
                        if a < l.1.len() {
                            assert(r.1[a] == l.1[a]);
                        } else {
                            assert(r.1[a] == t.1[a - l.1.len()]);
                        }
                    } else {
                        assert(r.1[a] == l.1[a]);
                        assert(r.1[b] == l.1[b]);
                    }
                }
            }
        } else {
            lemma_sweep_book_fills(book, rest, limit, taker_buys, taker, need, next_id);
            if forall|i: int, j: int| 0 <= i < j < prices.len() ==> prices[i] < prices[j] {
                assert forall|i: int, j: int| 0 <= i < j < rest.len() implies rest[i] < rest[j] by {
                    assert(rest[i] == prices[i + 1]);
                    assert(rest[j] == prices[j + 1]);
                }
            }
            if forall|i: int, j: int| 0 <= i < j < prices.len() ==> prices[i] > prices[j] {
                assert forall|i: int, j: int| 0 <= i < j < rest.len() implies rest[i] > rest[j] by {
                    assert(rest[i] == prices[i + 1]);
                    assert(rest[j] == prices[j + 1]);
                }
            }
        }
    }
}

/// If a sweep trades less than was wanted, every order of another user on a
/// swept level that the limit accepts is left with nothing open.
proof fn lemma_sweep_book_exhausts(
    book: Map<u64, Seq<Order>>,
    prices: Seq<u64>,
    limit: u64,
    taker_buys: bool,
    taker: Seq<char>,
    need: nat,
    next_id: int,
)
    requires
        prices.no_duplicates(),
        forall|i: int| 0 <= i < prices.len() ==> book.contains_key(#[trigger] prices[i]),
    ensures
        ({
            let r = sweep_book(book, prices, limit, taker_buys, taker, need, next_id);
            r.2 < need ==> forall|p: u64, i: int|
                #![trigger r.0[p][i]]
                prices.contains(p) && crosses(p, limit, taker_buys) && 0 <= i < r.0[p].len()
                    && r.0[p][i].user_id@ != taker ==> !is_open(r.0[p][i])
        }),
    decreases prices.len(),
{
    let r = sweep_book(book, prices, limit, taker_buys, taker, need, next_id);
    if prices.len() > 0 {
        let p0 = prices[0];
        let rest = prices.drop_first();
        assert(rest.no_duplicates());
        assert(!rest.contains(p0)) by {
            if rest.contains(p0) {
                let j = choose|j: int| 0 <= j < rest.len() && rest[j] == p0;
                assert(prices[j + 1] == prices[0]);
            }
        }
        assert(book.contains_key(p0));
        if crosses(p0, limit, taker_buys) && need > 0 {
            let l = sweep_level(book[p0], p0, taker, need, next_id);
            let b2 = book.insert(p0, l.0);
            assert forall|i: int| 0 <= i < rest.len() implies b2.contains_key(#[trigger] rest[i]) by {
                assert(rest[i] == prices[i + 1]);
            }
            lemma_sweep_book_exhausts(
                b2,
                rest,
                limit,
                taker_buys,
                taker,
                (need - l.2) as nat,
                next_id + l.1.len(),
            );
            lemma_sweep_book_frame(
                b2,
                rest,
                limit,
                taker_buys,
                taker,
                (need - l.2) as nat,
                next_id + l.1.len(),
                p0,
            );
            lemma_sweep_level_fills(book[p0], p0, taker, need, next_id);
            lemma_sweep_level_shape(book[p0], p0, taker, need, next_id);
            lemma_sweep_level_bounds(book[p0], p0, taker, need, next_id);
            if r.2 < need {
                assert(l.2 < need);
                assert forall|p: u64, i: int|
                    #![trigger r.0[p][i]]
                    prices.contains(p) && crosses(p, limit, taker_buys) && 0 <= i < r.0[p].len()
                        && r.0[p][i].user_id@ != taker implies !is_open(r.0[p][i]) by {
                    if p == p0 {
                        assert(r.0[p] == l.0);
                        assert(l.0[i].user_id == book[p0][i].user_id);
                    } else {
                        let j = choose|j: int| 0 <= j < prices.len() && prices[j] == p;
                        assert(j != 0);
                        assert(rest[j - 1] == p);
                    }
                }
            }
        } else {
            assert forall|i: int| 0 <= i < rest.len() implies book.contains_key(#[trigger] rest[i]) by {
                assert(rest[i] == prices[i + 1]);
            }
            lemma_sweep_book_exhausts(book, rest, limit, taker_buys, taker, need, next_id);
            if r.2 < need {
                assert forall|p: u64, i: int|
                    #![trigger r.0[p][i]]
                    prices.contains(p) && crosses(p, limit, taker_buys) && 0 <= i < r.0[p].len()
                        && r.0[p][i].user_id@ != taker implies !is_open(r.0[p][i]) by {
                    let j = choose|j: int| 0 <= j < prices.len() && prices[j] == p;
                    if j == 0 {
                        assert(need > 0);
                    } else {
                        assert(rest[j - 1] == p);
                    }
                }
            }
        }
    }
}

// ---------------------------------------------------------------------------
// Matching one level
// ---------------------------------------------------------------------------

/// Sweeps one level for a taker of user `taker` that wants `need`, appending
/// the fills to `fills` and numbering them after `last_id`.
fn sweep_level_exec(
    level: &Vec<Order>,
    price: u64,
    taker: &String,
    need: u64,
    last_id: &mut i64,
    fills: &mut Vec<Fill>,
) -> (res: (Vec<Order>, u64))
    requires
        *old(last_id) + sweep_level(level@, price, taker@, need as nat, *old(last_id) + 1).1.len()
            <= i64::MAX,
    ensures
        ({
            let s = sweep_level(level@, price, taker@, need as nat, *old(last_id) + 1);
            &&& res.0@ == s.0
            &&& res.1 == s.2
            &&& final(fills)@ == old(fills)@ + s.1
            &&& *final(last_id) == *old(last_id) + s.1.len()
        }),
{
    let ghost full = sweep_level(level@, price, taker@, need as nat, *old(last_id) + 1);
    let ghost fills0 = fills@;
    let ghost id0 = *last_id;
    let mut out: Vec<Order> = Vec::new();
    let mut left: u64 = need;
    let mut taken: u64 = 0;
    let mut i: usize = 0;
    let ghost mut done: Seq<Fill> = Seq::empty();
    proof {
        assert(level@.skip(0) =~= level@);
    }
    while i < level.len()
        invariant
            0 <= i <= level@.len(),
            out@.len() == i,
            taken + left == need,
            id0 + full.1.len() <= i64::MAX,
            ({
                let r = sweep_level(level@.skip(i as int), price, taker@, left as nat, *last_id + 1);
                &&& full.0 == out@ + r.0
                &&& full.1 == done + r.1
                &&& full.2 == taken + r.2
            }),
            fills@ == fills0 + done,
            *last_id == id0 + done.len(),
        decreases level@.len() - i,
    {
        let o = &level[i];
        proof {
            lemma_sweep_level_step(level@, i as int, price, taker@, left as nat, *last_id + 1);
        }
        if left == 0 || o.user_id == *taker || !(o.filled < o.quantity) {
            out.push(o.clone());
        } else {
            let avail = o.quantity - o.filled;
            let q = if left <= avail {
                left
            } else {
                avail
            };
            proof {
                lemma_sweep_level_bounds(level@.skip(i as int + 1), price, taker@, (left - q) as nat, *last_id + 2);
            }
            let mut updated = o.clone();
            updated.filled = o.filled + q;
            out.push(updated);
            *last_id = *last_id + 1;
            fills.push(
                Fill {
                    qty: q,
                    price,
                    trade_id: *last_id,
                    marker_order_id: o.order_id.clone(),
                    other_user_id: o.user_id.clone(),
                },
            );
            proof {
                done = done.push(fills@.last());
            }
            left = left - q;
            taken = taken + q;
        }
        i = i + 1;
    }
    (out, taken)
}

// ---------------------------------------------------------------------------
// Matching a book side
// ---------------------------------------------------------------------------

/// Sweeps the levels `prices` of one book side, in that order.
fn sweep_book_exec(
    side: &mut BTreeMap<u64, Vec<Order>>,
    prices: &Vec<u64>,
    limit: u64,
    taker_buys: bool,
    taker: &String,
    need: u64,
    last_id: &mut i64,
    fills: &mut Vec<Fill>,
) -> (executed: u64)
    requires
        forall|i: int| 0 <= i < prices@.len() ==> old(side)@.contains_key(#[trigger] prices@[i]),
        *old(last_id) + sweep_book(
            levels(*old(side)),
            prices@,
            limit,
            taker_buys,
            taker@,
            need as nat,
            *old(last_id) + 1,
        ).1.len() <= i64::MAX,
    ensures
        ({
            let s = sweep_book(
                levels(*old(side)),
                prices@,
                limit,
                taker_buys,
                taker@,
                need as nat,
                *old(last_id) + 1,
            );
            &&& levels(*final(side)) == s.0
            &&& executed == s.2
            &&& final(fills)@ == old(fills)@ + s.1
            &&& *final(last_id) == *old(last_id) + s.1.len()
        }),
        final(side)@.dom() == old(side)@.dom(),
{
    proof {
        crate::price_ladder::lemma_price_order();
    }
    let ghost full = sweep_book(
        levels(*side),
        prices@,
        limit,
        taker_buys,
        taker@,
        need as nat,
        *last_id + 1,
    );
    let ghost fills0 = fills@;
    let ghost id0 = *last_id;
    let ghost dom0 = side@.dom();
    let ghost mut done: Seq<Fill> = Seq::empty();
    let mut left: u64 = need;
    let mut taken: u64 = 0;
    let mut i: usize = 0;
    proof {
        assert(prices@.skip(0) =~= prices@);
    }
    while i < prices.len()
        invariant
            0 <= i <= prices@.len(),
            taken + left == need,
            id0 + full.1.len() <= i64::MAX,
            side@.dom() == dom0,
            forall|k: int| 0 <= k < prices@.len() ==> dom0.contains(#[trigger] prices@[k]),
            ({
                let r = sweep_book(
                    levels(*side),
                    prices@.skip(i as int),
                    limit,
                    taker_buys,
                    taker@,
                    left as nat,
                    *last_id + 1,
                );
                &&& full.0 == r.0
                &&& full.1 == done + r.1
                &&& full.2 == taken + r.2
            }),
            fills@ == fills0 + done,
            *last_id == id0 + done.len(),
            crate::price_ladder::prices_ordered(),
        decreases prices@.len() - i,
    {
        let p = prices[i];
        proof {
            lemma_sweep_book_step(
                levels(*side),
                prices@,
                i as int,
                limit,
                taker_buys,
                taker@,
                left as nat,
                *last_id + 1,
            );
        }
        let crossing = if taker_buys {
            p <= limit
        } else {
            p >= limit
        };
        if crossing && left > 0 {
            let ghost before = *side;
            let ghost l = sweep_level(levels(before)[p], p, taker@, left as nat, *last_id + 1);
            proof {
                lemma_sweep_book_bounds(
                    levels(before).insert(p, l.0),
                    prices@.skip(i as int + 1),
                    limit,
                    taker_buys,
                    taker@,
                    (left - l.2) as nat,
                    *last_id + 1 + l.1.len(),
                );
                lemma_sweep_level_bounds(levels(before)[p], p, taker@, left as nat, *last_id + 1);
            }
            let level = side.remove(&p).unwrap();
            assert(level@ == levels(before)[p]);
            let ghost fills_before = fills@;
            let (new_level, got) = sweep_level_exec(&level, p, taker, left, last_id, fills);
            side.insert(p, new_level);
            proof {
                assert(levels(*side) =~= levels(before).insert(p, l.0));
                assert(side@.dom() =~= dom0);
                done = done + l.1;
                assert(fills@ =~= fills0 + done);
            }
            left = left - got;
            taken = taken + got;
        }
        i = i + 1;
    }
    proof {
        assert(prices@.skip(i as int) =~= Seq::<u64>::empty());
    }
    taken
}

/// The open orders of a level, in order.
fn open_orders_of(level: &Vec<Order>) -> (r: Vec<Order>)
    ensures
        r@ == open_part(level@),
{
    let mut r: Vec<Order> = Vec::new();
    let mut i: usize = 0;
    proof {
        assert(level@.take(0) =~= Seq::<Order>::empty());
    }
    while i < level.len()
        invariant
            0 <= i <= level@.len(),
            r@ == open_part(level@.take(i as int)),
        decreases level@.len() - i,
    {
        proof {
            lemma_open_part_step(level@, i as int);
        }
        if level[i].filled < level[i].quantity {
            r.push(level[i].clone());
        }
        i = i + 1;
    }
    proof {
        assert(level@.take(level@.len() as int) =~= level@);
    }
    r
}

/// Drops filled orders from every level of a side and removes the levels
/// that are left empty.
fn prune_exec(side: &mut BTreeMap<u64, Vec<Order>>)
    ensures
        levels(*final(side)) == prune(levels(*old(side))),
{
    proof {
        crate::price_ladder::lemma_price_order();
    }
    let ghost orig = levels(*side);
    let keys = ascending_keys(side);
    let mut i: usize = 0;
    while i < keys.len()
        invariant
            0 <= i <= keys@.len(),
            crate::price_ladder::is_ladder(keys@, orig.dom()),
            crate::price_ladder::prices_ordered(),
            forall|p: u64|
                #![trigger levels(*side).contains_key(p)]
                #![trigger levels(*side)[p]]
                if keys@.take(i as int).contains(p) {
                    &&& levels(*side).contains_key(p) == (orig.contains_key(p) && open_part(orig[p]).len() > 0)
                    &&& levels(*side).contains_key(p) ==> levels(*side)[p] == open_part(orig[p])
                } else {
                    &&& levels(*side).contains_key(p) == orig.contains_key(p)
                    &&& levels(*side).contains_key(p) ==> levels(*side)[p] == orig[p]
                },
        decreases keys@.len() - i,
    {
        let p = keys[i];
        let ghost before = levels(*side);
        proof {
            assert(keys@.contains(p));
            assert(orig.contains_key(p));
            if keys@.take(i as int).contains(p) {
                let j = choose|j: int| 0 <= j < i && keys@.take(i as int)[j] == p;
                assert(keys@[j] == keys@[i as int]);
            }
            assert(before.contains_key(p));
        }
        let level = side.remove(&p).unwrap();
        let kept = open_orders_of(&level);
        let ghost removed = levels(*side);
        proof {
            assert(removed =~= before.remove(p));
        }
        if kept.len() > 0 {
            side.insert(p, kept);
            proof {
                assert(levels(*side) =~= removed.insert(p, open_part(orig[p])));
            }
        }
        proof {
            assert(!keys@.take(i as int).contains(p));
            assert(before[p] == orig[p]);
            assert(level@ == orig[p]);
            let t = keys@.take(i + 1);
            assert(t =~= keys@.take(i as int).push(p));
            assert(t[i as int] == p);
            assert forall|q: u64|
                #![trigger levels(*side).contains_key(q)]
                #![trigger levels(*side)[q]]
                if keys@.take(i + 1).contains(q) {
                    &&& levels(*side).contains_key(q) == (orig.contains_key(q) && open_part(orig[q]).len() > 0)
                    &&& levels(*side).contains_key(q) ==> levels(*side)[q] == open_part(orig[q])
                } else {
                    &&& levels(*side).contains_key(q) == orig.contains_key(q)
                    &&& levels(*side).contains_key(q) ==> levels(*side)[q] == orig[q]
                } by {
                if q == p {
                    assert(t.contains(q));
                } else {
                    assert(before.contains_key(q) == levels(*side).contains_key(q));
                    if t.contains(q) {
                        let j = choose|j: int| 0 <= j < t.len() && t[j] == q;
                        assert(j < i);
                        assert(keys@.take(i as int)[j] == q);
                        assert(keys@.take(i as int).contains(q));
                    } else {
                        if keys@.take(i as int).contains(q) {
                            let j = choose|j: int| 0 <= j < i && keys@.take(i as int)[j] == q;
                            assert(t[j] == q);
                        }
                    }
                    assert(before.contains_key(q) ==> levels(*side)[q] == before[q]);
                }
            }
        }
        i = i + 1;
    }
    proof {
        assert(keys@.take(keys@.len() as int) =~= keys@);
        assert(levels(*side) =~= prune(orig)) by {
            assert forall|q: u64| #[trigger] levels(*side).contains_key(q) == prune(orig).contains_key(q) by {
                if orig.contains_key(q) {
                    assert(keys@.contains(q));
                } else if keys@.contains(q) {
                    assert(orig.dom().contains(q));
                }
            }
        }
    }
}

/// Appends the open `order` to the level of its price, creating the level
/// if it is missing.
fn rest_order_exec(book: &mut BTreeMap<u64, Vec<Order>>, order: &Order)
    requires
        side_wf(levels(*old(book)), order.side),
        is_open(*order),
    ensures
        levels(*final(book)) == rest_order(levels(*old(book)), *order),
        side_wf(levels(*final(book)), order.side),
{
    proof {
        crate::price_ladder::lemma_price_order();
    }
    let ghost before = levels(*book);
    let resting = order.clone();
    match book.remove(&order.price) {
        Some(mut level) => {
            level.push(resting);
            book.insert(order.price, level);
        },
        None => {
            let mut level: Vec<Order> = Vec::new();
            level.push(resting);
            book.insert(order.price, level);
        },
    }
    proof {
        let b = levels(*book);
        assert(b =~= rest_order(before, *order));
        assert forall|p: u64, i: int| b.contains_key(p) && 0 <= i < b[p].len() implies {
            &&& b[p][i].price == p
            &&& b[p][i].side == order.side
            &&& is_open(b[p][i])
        } by {
            if p == order.price {
                if i == b[p].len() - 1 {
                    assert(b[p][i] == *order);
                } else {
                    assert(before.contains_key(p));
                    assert(b[p][i] == before[p][i]);
                    assert(before[p][i].price == p);
                }
            } else {
                assert(b[p] == before[p]);
                assert(before[p][i].price == p);
            }
        }
        assert(side_wf(b, order.side));
    }
}

// ---------------------------------------------------------------------------
// Reading a book side
// ---------------------------------------------------------------------------

/// The open quantity of a level whose orders are all open.
fn level_open_total(level: &Vec<Order>) -> (t: u128)
    requires
        forall|i: int| 0 <= i < level@.len() ==> is_open(#[trigger] level@[i]),
    ensures
        t == level_total(level@),
{
    let mut t: u128 = 0;
    let mut i: usize = 0;
    proof {
        assert(level@.take(0) =~= Seq::<Order>::empty());
    }
    while i < level.len()
        invariant
            0 <= i <= level@.len(),
            forall|k: int| 0 <= k < level@.len() ==> is_open(#[trigger] level@[k]),
            t == level_total(level@.take(i as int)),
            t <= i * 0xffff_ffff_ffff_ffffu128,
        decreases level@.len() - i,
    {
        let o = &level[i];
        proof {
            let n = i as int;
            assert(level@.take(n + 1).drop_last() =~= level@.take(n));
            assert(level@.take(n + 1).last() == level@[n]);
            assert(is_open(level@[n]));
            assert((n + 1) * 0xffff_ffff_ffff_ffffu128 == n * 0xffff_ffff_ffff_ffffu128 + 0xffff_ffff_ffff_ffffu128)
                by (nonlinear_arith);
            assert((n + 1) * 0xffff_ffff_ffff_ffffu128 <= 0xffff_ffff_ffff_ffffu128 * 0xffff_ffff_ffff_ffffu128)
                by (nonlinear_arith)
                requires
                    n + 1 <= 0xffff_ffff_ffff_ffff,
            ;
        }
        t = t + (o.quantity - o.filled) as u128;
        i = i + 1;
    }
    proof {
        assert(level@.take(level@.len() as int) =~= level@);
    }
    t
}

/// Depth rows of the levels `prices` of a well-formed side.
fn depth_side(book: &BTreeMap<u64, Vec<Order>>, prices: &Vec<u64>, side: OrderSide) -> (rows: Vec<(String, String)>)
    requires
        side_wf(levels(*book), side),
        forall|i: int| 0 <= i < prices@.len() ==> book@.contains_key(#[trigger] prices@[i]),
    ensures
        rows_view(rows@) == depth_rows(levels(*book), prices@),
{
    proof {
        crate::price_ladder::lemma_price_order();
    }
    let mut rows: Vec<(String, String)> = Vec::new();
    let mut i: usize = 0;
    proof {
        assert(prices@.take(0) =~= Seq::<u64>::empty());
        assert(rows_view(rows@) =~= Seq::empty());
    }
    while i < prices.len()
        invariant
            0 <= i <= prices@.len(),
            side_wf(levels(*book), side),
            forall|k: int| 0 <= k < prices@.len() ==> book@.contains_key(#[trigger] prices@[k]),
            rows_view(rows@) == depth_rows(levels(*book), prices@.take(i as int)),
            crate::price_ladder::prices_ordered(),
        decreases prices@.len() - i,
    {
        let p = prices[i];
        let level = book.get(&p).unwrap();
        proof {
            assert(levels(*book)[p] == level@);
            assert forall|k: int| 0 <= k < level@.len() implies is_open(#[trigger] level@[k]) by {
                assert(levels(*book)[p][k] == level@[k]);
            }
            let n = i as int;
            assert(prices@.take(n + 1).drop_last() =~= prices@.take(n));
            assert(prices@.take(n + 1).last() == p);
        }
        let total = level_open_total(level);
        let ghost old_rows = rows@;
        if total > 0 {
            rows.push((decimal_string(p as u128), decimal_string(total)));
            proof {
                assert(rows_view(rows@) =~= rows_view(old_rows).push(
                    (crate::decimal::decimal(p as nat), crate::decimal::decimal(total as nat)),
                ));
            }
        }
        i = i + 1;
    }
    proof {
        assert(prices@.take(prices@.len() as int) =~= prices@);
    }
    rows
}

/// The open orders of `user` in the levels `prices` of a side.
fn user_open_side(book: &BTreeMap<u64, Vec<Order>>, prices: &Vec<u64>, user: &String, out: &mut Vec<Order>)
    requires
        forall|i: int| 0 <= i < prices@.len() ==> book@.contains_key(#[trigger] prices@[i]),
    ensures
        final(out)@ == old(out)@ + user_open_in_book(levels(*book), prices@, user@),
{
    proof {
        crate::price_ladder::lemma_price_order();
    }
    let ghost start = out@;
    let mut i: usize = 0;
    proof {
        assert(prices@.take(0) =~= Seq::<u64>::empty());
        assert(out@ =~= start + Seq::<Order>::empty());
    }
    while i < prices.len()
        invariant
            0 <= i <= prices@.len(),
            forall|k: int| 0 <= k < prices@.len() ==> book@.contains_key(#[trigger] prices@[k]),
            out@ == start + user_open_in_book(levels(*book), prices@.take(i as int), user@),
            crate::price_ladder::prices_ordered(),
        decreases prices@.len() - i,
    {
        let p = prices[i];
        let level = book.get(&p).unwrap();
        let ghost before = out@;
        let mut j: usize = 0;
        proof {
            assert(level@.take(0) =~= Seq::<Order>::empty());
            assert(out@ =~= before + user_open_in_level(level@.take(0), user@));
        }
        while j < level.len()
            invariant
                0 <= j <= level@.len(),
                out@ == before + user_open_in_level(level@.take(j as int), user@),
            decreases level@.len() - j,
        {
            proof {
                let n = j as int;
                assert(level@.take(n + 1).drop_last() =~= level@.take(n));
                assert(level@.take(n + 1).last() == level@[n]);
            }
            if level[j].user_id == *user && level[j].filled < level[j].quantity {
                out.push(level[j].clone());
            }
            j = j + 1;
        }
        proof {
            assert(level@.take(level@.len() as int) =~= level@);
            assert(levels(*book)[p] == level@);
            let n = i as int;
            assert(prices@.take(n + 1).drop_last() =~= prices@.take(n));
            assert(prices@.take(n + 1).last() == p);
            assert(out@ =~= start + user_open_in_book(levels(*book), prices@.take(n + 1), user@));
        }
        i = i + 1;
    }
    proof {
        assert(prices@.take(prices@.len() as int) =~= prices@);
    }
}

/// Whether a level holds an order with id `id`.
fn level_holds(level: &Vec<Order>, id: &String) -> (b: bool)
    ensures
        b == holds_order(level@, id@),
{
    let mut i: usize = 0;
    while i < level.len()
        invariant
            0 <= i <= level@.len(),
            forall|k: int| 0 <= k < i ==> (#[trigger] level@[k]).order_id@ != id@,
        decreases level@.len() - i,
    {
        if level[i].order_id == *id {
            return true;
        }
        i = i + 1;
    }
    false
}

/// A level without its orders of id `id`.
fn without_order_exec(level: &Vec<Order>, id: &String) -> (r: Vec<Order>)
    ensures
        r@ == without_order(level@, id@),
{
    let mut r: Vec<Order> = Vec::new();
    let mut i: usize = 0;
    proof {
        assert(level@.take(0) =~= Seq::<Order>::empty());
    }
    while i < level.len()
        invariant
            0 <= i <= level@.len(),
            r@ == without_order(level@.take(i as int), id@),
        decreases level@.len() - i,
    {
        proof {
            let n = i as int;
            assert(level@.take(n + 1).drop_last() =~= level@.take(n));
            assert(level@.take(n + 1).last() == level@[n]);
        }
        if !(level[i].order_id == *id) {
            r.push(level[i].clone());
        }
        i = i + 1;
    }
    proof {
        assert(level@.take(level@.len() as int) =~= level@);
    }
    r
}

/// Removes the orders of id `id` from the first level (in the order of
/// `prices`) that holds one, drops that level if it is left empty, and
/// returns its price.
fn cancel_in_side(book: &mut BTreeMap<u64, Vec<Order>>, prices: &Vec<u64>, id: &String) -> (found: Option<u64>)
    requires
        forall|i: int| 0 <= i < prices@.len() ==> old(book)@.contains_key(#[trigger] prices@[i]),
    ensures
        found == first_level_holding(levels(*old(book)), prices@, id@),
        found matches Some(p) ==> old(book)@.contains_key(p),
        found matches Some(p) ==> levels(*final(book)) == cancel_level(levels(*old(book)), p, id@),
        found is None ==> levels(*final(book)) == levels(*old(book)),
{
    proof {
        crate::price_ladder::lemma_price_order();
    }
    let ghost orig = levels(*book);
    let mut i: usize = 0;
    proof {
        assert(prices@.skip(0) =~= prices@);
    }
    while i < prices.len()
        invariant
            0 <= i <= prices@.len(),
            *book == *old(book),
            forall|k: int| 0 <= k < prices@.len() ==> book@.contains_key(#[trigger] prices@[k]),
            first_level_holding(orig, prices@, id@) == first_level_holding(orig, prices@.skip(i as int), id@),
            orig == levels(*book),
            crate::price_ladder::prices_ordered(),
        decreases prices@.len() - i,
    {
        let p = prices[i];
        let level = book.get(&p).unwrap();
        proof {
            let s = prices@.skip(i as int);
            assert(s[0] == p);
            assert(s.drop_first() =~= prices@.skip(i as int + 1));
            assert(orig[p] == level@);
        }
        if level_holds(level, id) {
            let kept = without_order_exec(level, id);
            if kept.len() == 0 {
                let _ = book.remove(&p);
                proof {
                    assert(levels(*book) =~= cancel_level(orig, p, id@));
                }
            } else {
                book.insert(p, kept);
                proof {
                    assert(levels(*book) =~= cancel_level(orig, p, id@));
                }
            }
            return Some(p);
        }
        i = i + 1;
    }
    proof {
        assert(prices@.skip(i as int) =~= Seq::<u64>::empty());
    }
    None
}

/// Removing orders from a level keeps the side well formed.
proof fn lemma_without_order_wf(book: Map<u64, Seq<Order>>, p: u64, id: Seq<char>, side: OrderSide)
    requires
        side_wf(book, side),
        book.contains_key(p),
    ensures
        side_wf(book.insert(p, without_order(book[p], id)), side),
{
    lemma_without_order_elems(book[p], id);
    let b = book.insert(p, without_order(book[p], id));
    assert forall|q: u64, i: int| b.contains_key(q) && 0 <= i < b[q].len() implies {
        &&& b[q][i].price == q
        &&& b[q][i].side == side
        &&& is_open(b[q][i])
    } by {
        if q == p {
            let j = choose|j: int| 0 <= j < book[p].len() && book[p][j] == b[q][i];
            assert(book[p][j].price == p);
        } else {
            assert(b[q][i] == book[q][i]);
        }
    }
}

/// Cancelling keeps the side well formed, and keeps every level non-empty.
proof fn lemma_cancel_level_wf(book: Map<u64, Seq<Order>>, p: u64, id: Seq<char>, side: OrderSide)
    requires
        side_wf(book, side),
        book.contains_key(p),
    ensures
        side_wf(cancel_level(book, p, id), side),
        levels_nonempty(book) ==> levels_nonempty(cancel_level(book, p, id)),
{
    lemma_without_order_wf(book, p, id, side);
    let c = cancel_level(book, p, id);
    if without_order(book[p], id).len() == 0 {
        assert forall|q: u64, i: int| c.contains_key(q) && 0 <= i < c[q].len() implies {
            &&& c[q][i].price == q
            &&& c[q][i].side == side
            &&& is_open(c[q][i])
        } by {
            assert(c[q] == book[q]);
            assert(book[q][i].price == q);
        }
    }
}

/// Removing orders from a level keeps only orders of the level.
proof fn lemma_without_order_elems(level: Seq<Order>, id: Seq<char>)
    ensures
        forall|i: int|
            0 <= i < without_order(level, id).len() ==> exists|j: int|
                0 <= j < level.len() && level[j] == #[trigger] without_order(level, id)[i],
    decreases level.len(),
{
    if level.len() > 0 {
        let d = level.drop_last();
        lemma_without_order_elems(d, id);
        let w = without_order(level, id);
        assert forall|i: int| 0 <= i < w.len() implies exists|j: int|
            0 <= j < level.len() && level[j] == #[trigger] w[i] by {
            if i < without_order(d, id).len() {
                assert(w[i] == without_order(d, id)[i]);
                let j = choose|j: int| 0 <= j < d.len() && d[j] == without_order(d, id)[i];
                assert(level[j] == d[j]);
            } else {
                assert(w[i] == level.last());
                assert(level[level.len() - 1] == level.last());
            }
        }
    }
}

/// A level none of whose orders has id `id` loses nothing to its removal.
proof fn lemma_without_absent_order(level: Seq<Order>, id: Seq<char>)
    requires
        !holds_order(level, id),
    ensures
        without_order(level, id) == level,
    decreases level.len(),
{
    if level.len() > 0 {
        let d = level.drop_last();
        assert(!holds_order(d, id)) by {
            if holds_order(d, id) {
                let i = choose|i: int| 0 <= i < d.len() && (#[trigger] d[i]).order_id@ == id;
                assert(level[i] == d[i]);
            }
        }
        lemma_without_absent_order(d, id);
        assert(level[level.len() - 1] == level.last());
        assert(d.push(level.last()) =~= level);
    }
}

/// Along `prices`, the first level holding `id` is `target` when it is the
/// only one that does.
proof fn lemma_first_level_is_the_only(
    book: Map<u64, Seq<Order>>,
    prices: Seq<u64>,
    id: Seq<char>,
    target: u64,
)
    requires
        prices.contains(target),
        holds_order(book[target], id),
        forall|q: u64| #[trigger] prices.contains(q) && q != target ==> !holds_order(book[q], id),
    ensures
        first_level_holding(book, prices, id) == Some(target),
    decreases prices.len(),
{
    if prices[0] != target {
        let rest = prices.drop_first();
        let k = choose|k: int| 0 <= k < prices.len() && prices[k] == target;
        assert(rest[k - 1] == target);
        assert forall|q: u64| #[trigger] rest.contains(q) && q != target implies !holds_order(book[q], id) by {
            let j = choose|j: int| 0 <= j < rest.len() && rest[j] == q;
            assert(prices[j + 1] == q);
            assert(prices.contains(q));
        }
        assert(prices[0] == prices[0] && prices.contains(prices[0]));
        lemma_first_level_is_the_only(book, rest, id, target);
    }
}

/// Cancelling undoes resting: when an order rests under an id that no order
/// of its side has, on a side with no empty level, a cancel of that id finds
/// it at its own price, and taking it away gives the side back as it was.
pub proof fn lemma_cancel_undoes_rest(book: Map<u64, Seq<Order>>, o: Order)
    requires
        book.dom().finite(),
        levels_nonempty(book),
        o.filled != o.quantity,
        forall|p: u64| #[trigger] book.contains_key(p) ==> !holds_order(book[p], o.order_id@),
    ensures
        ({
            let after = rest_order(book, o);
            &&& first_level_holding(after, crate::price_ladder::ascending(after.dom()), o.order_id@)
                == Some(o.price)
            &&& cancel_level(after, o.price, o.order_id@) == book
        }),
{
    let id = o.order_id@;
    let after = rest_order(book, o);
    let p = o.price;
    let level = if book.contains_key(p) {
        book[p]
    } else {
        Seq::<Order>::empty()
    };
    assert(after[p] == level.push(o)) by {
        if !book.contains_key(p) {
            assert(seq![o] =~= Seq::<Order>::empty().push(o));
        }
    }
    assert(after.dom() == book.dom().insert(p));
    crate::price_ladder::lemma_ladders(after.dom());
    let ladder = crate::price_ladder::ascending(after.dom());
    assert(after[p][level.len() as int] == o);
    assert(holds_order(after[p], id));
    assert forall|q: u64| #[trigger] ladder.contains(q) && q != p implies !holds_order(after[q], id) by {
        assert(after.dom().contains(q));
        assert(after[q] == book[q]);
    }
    assert(after.dom().contains(p));
    assert(ladder.contains(p));
    lemma_first_level_is_the_only(after, ladder, id, p);
    assert(!holds_order(level, id)) by {
        if !book.contains_key(p) {
            assert(level.len() == 0);
        }
    }
    lemma_without_absent_order(level, id);
    assert(level.push(o).drop_last() =~= level);
    assert(without_order(after[p], id) == level);
    if book.contains_key(p) {
        assert(level.len() > 0);
        assert(after.insert(p, level) =~= book);
    } else {
        assert(after.remove(p) =~= book);
    }
}

/// The open quantity of the levels `prices` of `book`; a price without a
/// level counts for nothing.
pub open spec fn side_total(book: Map<u64, Seq<Order>>, prices: Seq<u64>) -> int
    decreases prices.len(),
{
    if prices.len() == 0 {
        0
    } else {
        (if book.contains_key(prices[0]) {
            level_total(book[prices[0]])
        } else {
            0
        }) + side_total(book, prices.drop_first())
    }
}

/// No order of a side has more filled than its quantity.
pub open spec fn not_overfilled(book: Map<u64, Seq<Order>>) -> bool {
    forall|p: u64, i: int|
        #![trigger book[p][i]]
        book.contains_key(p) && 0 <= i < book[p].len() ==> book[p][i].filled <= book[p][i].quantity
}

proof fn lemma_level_total_front(level: Seq<Order>)
    requires
        level.len() > 0,
    ensures
        level_total(level) == open_qty(level[0]) + level_total(level.drop_first()),
    decreases level.len(),
{
    let d = level.drop_last();
    let f = level.drop_first();
    assert(level.last() == level[level.len() - 1]);
    if level.len() == 1 {
        assert(level_total(d) == 0);
        assert(level_total(f) == 0);
        assert(level_total(level) == level_total(d) + open_qty(level.last()));
    } else {
        lemma_level_total_front(d);
        assert(f.drop_last() =~= d.drop_first());
        assert(f.last() == level.last());
        assert(d[0] == level[0]);
        assert(level_total(level) == level_total(d) + open_qty(level.last()));
        assert(level_total(f) == level_total(f.drop_last()) + open_qty(f.last()));
    }
}

proof fn lemma_sweep_level_total(level: Seq<Order>, price: u64, taker: Seq<char>, need: nat, next_id: int)
    ensures
        ({
            let r = sweep_level(level, price, taker, need, next_id);
            &&& level_total(level) == level_total(r.0) + r.2
            &&& (forall|i: int| 0 <= i < level.len() ==> (#[trigger] level[i]).filled <= level[i].quantity)
                ==> forall|i: int| 0 <= i < r.0.len() ==> (#[trigger] r.0[i]).filled <= r.0[i].quantity
        }),
    decreases level.len(),
{
    if level.len() > 0 && need > 0 {
        let o = level[0];
        let r = sweep_level(level, price, taker, need, next_id);
        let tail = level.drop_first();
        lemma_level_total_front(level);
        let t = if o.user_id@ == taker || !is_open(o) {
            sweep_level(tail, price, taker, need, next_id)
        } else {
            sweep_level(tail, price, taker, (need - take_qty(need, o)) as nat, next_id + 1)
        };
        if o.user_id@ == taker || !is_open(o) {
            lemma_sweep_level_total(tail, price, taker, need, next_id);
        } else {
            lemma_sweep_level_total(tail, price, taker, (need - take_qty(need, o)) as nat, next_id + 1);
        }
        assert(r.0.len() > 0);
        lemma_level_total_front(r.0);
        assert(r.0.drop_first() =~= t.0);
        if forall|i: int| 0 <= i < level.len() ==> (#[trigger] level[i]).filled <= level[i].quantity {
            assert forall|i: int| 0 <= i < tail.len() implies (#[trigger] tail[i]).filled <= tail[i].quantity by {
                assert(tail[i] == level[i + 1]);
            }
            assert forall|i: int| 0 <= i < r.0.len() implies (#[trigger] r.0[i]).filled <= r.0[i].quantity by {
                if i > 0 {
                    assert(r.0[i] == t.0[i - 1]);
                }
            }
        }
    }
}

proof fn lemma_side_total_frame(book: Map<u64, Seq<Order>>, prices: Seq<u64>, p: u64, v: Seq<Order>)
    requires
        !prices.contains(p),
    ensures
        side_total(book.insert(p, v), prices) == side_total(book, prices),
    decreases prices.len(),
{
    if prices.len() > 0 {
        assert(prices[0] != p);
        assert(!prices.drop_first().contains(p)) by {
            if prices.drop_first().contains(p) {
                let j = choose|j: int| 0 <= j < prices.drop_first().len() && prices.drop_first()[j] == p;
                assert(prices[j + 1] == p);
            }
        }
        lemma_side_total_frame(book, prices.drop_first(), p, v);
    }
}

proof fn lemma_sweep_book_total(
    book: Map<u64, Seq<Order>>,
    prices: Seq<u64>,
    limit: u64,
    taker_buys: bool,
    taker: Seq<char>,
    need: nat,
    next_id: int,
)
    requires
        prices.no_duplicates(),
        forall|i: int| 0 <= i < prices.len() ==> book.contains_key(#[trigger] prices[i]),
        not_overfilled(book),
    ensures
        ({
            let r = sweep_book(book, prices, limit, taker_buys, taker, need, next_id);
            &&& side_total(book, prices) == side_total(r.0, prices) + r.2
            &&& not_overfilled(r.0)
        }),
    decreases prices.len(),
{
    if prices.len() > 0 {
        let p = prices[0];
        let rest = prices.drop_first();
        let r = sweep_book(book, prices, limit, taker_buys, taker, need, next_id);
        assert(rest.no_duplicates());
        assert(!rest.contains(p)) by {
            if rest.contains(p) {
                let j = choose|j: int| 0 <= j < rest.len() && rest[j] == p;
                assert(prices[j + 1] == p);
            }
        }
        assert forall|i: int| 0 <= i < rest.len() implies book.contains_key(#[trigger] rest[i]) by {
            assert(rest[i] == prices[i + 1]);
        }
        assert(book.contains_key(p));
        if crosses(p, limit, taker_buys) && need > 0 {
            let l = sweep_level(book[p], p, taker, need, next_id);
            let b2 = book.insert(p, l.0);
            lemma_sweep_level_total(book[p], p, taker, need, next_id);
            assert forall|i: int| 0 <= i < book[p].len() implies (#[trigger] book[p][i]).filled
                <= book[p][i].quantity by {}
            assert(not_overfilled(b2)) by {
                assert forall|k: u64, i: int| b2.contains_key(k) && 0 <= i < b2[k].len() implies #[trigger] b2[k][i].filled
                    <= b2[k][i].quantity by {
                    if k != p {
                        assert(b2[k] == book[k]);
                        assert(book[k][i].filled <= book[k][i].quantity);
                    }
                }
            }
            lemma_sweep_book_total(b2, rest, limit, taker_buys, taker, (need - l.2) as nat, next_id + l.1.len());
            lemma_sweep_book_frame(b2, rest, limit, taker_buys, taker, (need - l.2) as nat, next_id + l.1.len(), p);
            lemma_side_total_frame(book, rest, p, l.0);
        } else {
            lemma_sweep_book_total(book, rest, limit, taker_buys, taker, need, next_id);
            lemma_sweep_book_frame(book, rest, limit, taker_buys, taker, need, next_id, p);
        }
    }
}

proof fn lemma_open_part_total(level: Seq<Order>)
    requires
        forall|i: int| 0 <= i < level.len() ==> (#[trigger] level[i]).filled <= level[i].quantity,
    ensures
        level_total(open_part(level)) == level_total(level),
    decreases level.len(),
{
    if level.len() > 0 {
        let d = level.drop_last();
        assert forall|i: int| 0 <= i < d.len() implies (#[trigger] d[i]).filled <= d[i].quantity by {
            assert(d[i] == level[i]);
        }
        lemma_open_part_total(d);
        assert(level[level.len() - 1] == level.last());
        if is_open(level.last()) {
            let x = open_part(d).push(level.last());
            assert(x.drop_last() =~= open_part(d));
        }
    }
}

proof fn lemma_prune_total(m: Map<u64, Seq<Order>>, prices: Seq<u64>)
    requires
        not_overfilled(m),
    ensures
        side_total(prune(m), prices) == side_total(m, prices),
    decreases prices.len(),
{
    if prices.len() > 0 {
        let p = prices[0];
        lemma_prune_total(m, prices.drop_first());
        if m.contains_key(p) {
            assert forall|i: int| 0 <= i < m[p].len() implies (#[trigger] m[p][i]).filled <= m[p][i].quantity by {}
            lemma_open_part_total(m[p]);
            if open_part(m[p]).len() == 0 {
                assert(open_part(m[p]) =~= Seq::<Order>::empty());
            }
        }
    }
}

proof fn lemma_ladder_in_dom(m: Map<u64, Seq<Order>>, prices: Seq<u64>)
    requires
        forall|p: u64| #[trigger] m.dom().contains(p) <==> prices.contains(p),
    ensures
        forall|i: int| 0 <= i < prices.len() ==> m.contains_key(#[trigger] prices[i]),
{
    assert forall|i: int| 0 <= i < prices.len() implies m.contains_key(#[trigger] prices[i]) by {
        assert(prices.contains(prices[i]));
    }
}

/// Time priority within a level swept for user `taker`: when an order of
/// the level trades, every earlier order of another user that was open is
/// filled in full.
pub open spec fn time_priority_kept(before: Seq<Order>, after: Seq<Order>, taker: Seq<char>) -> bool {
    forall|i: int, j: int|
        #![trigger after[i], after[j]]
        0 <= i < j < before.len() && after[j].filled > before[j].filled && is_open(before[i])
            && before[i].user_id@ != taker ==> after[i].filled == before[i].quantity
}

/// A level sweep that trades less than is wanted leaves every order of
/// another user that was open filled in full.
proof fn lemma_sweep_level_short(level: Seq<Order>, price: u64, taker: Seq<char>, need: nat, next_id: int)
    ensures
        ({
            let r = sweep_level(level, price, taker, need, next_id);
            r.2 < need ==> forall|i: int|
                0 <= i < level.len() && is_open(level[i]) && level[i].user_id@ != taker
                    ==> #[trigger] r.0[i].filled == level[i].quantity
        }),
    decreases level.len(),
{
    if level.len() > 0 && need > 0 {
        let o = level[0];
        let tail = level.drop_first();
        let r = sweep_level(level, price, taker, need, next_id);
        if o.user_id@ == taker || !is_open(o) {
            lemma_sweep_level_short(tail, price, taker, need, next_id);
            lemma_sweep_level_bounds(tail, price, taker, need, next_id);
            let t = sweep_level(tail, price, taker, need, next_id);
            if r.2 < need {
                assert forall|i: int|
                    0 <= i < level.len() && is_open(level[i]) && level[i].user_id@ != taker
                        implies #[trigger] r.0[i].filled == level[i].quantity by {
                    assert(i > 0);
                    assert(r.0[i] == t.0[i - 1]);
                    assert(tail[i - 1] == level[i]);
                }
            }
        } else {
            let q = take_qty(need, o);
            lemma_sweep_level_short(tail, price, taker, (need - q) as nat, next_id + 1);
            lemma_sweep_level_bounds(tail, price, taker, (need - q) as nat, next_id + 1);
            let t = sweep_level(tail, price, taker, (need - q) as nat, next_id + 1);
            if r.2 < need {
                assert(q == open_qty(o));
                assert forall|i: int|
                    0 <= i < level.len() && is_open(level[i]) && level[i].user_id@ != taker
                        implies #[trigger] r.0[i].filled == level[i].quantity by {
                    if i > 0 {
                        assert(r.0[i] == t.0[i - 1]);
                        assert(tail[i - 1] == level[i]);
                    }
                }
            }
        }
    }
}

proof fn lemma_sweep_level_time_priority(level: Seq<Order>, price: u64, taker: Seq<char>, need: nat, next_id: int)
    ensures
        time_priority_kept(level, sweep_level(level, price, taker, need, next_id).0, taker),
    decreases level.len(),
{
    let r = sweep_level(level, price, taker, need, next_id);
    if level.len() > 0 && need > 0 {
        let o = level[0];
        let tail = level.drop_first();
        if o.user_id@ == taker || !is_open(o) {
            lemma_sweep_level_time_priority(tail, price, taker, need, next_id);
            lemma_sweep_level_bounds(tail, price, taker, need, next_id);
            let t = sweep_level(tail, price, taker, need, next_id);
            assert forall|i: int, j: int|
                0 <= i < j < level.len() && (#[trigger] r.0[j]).filled > level[j].filled && is_open(level[i])
                    && level[i].user_id@ != taker implies (#[trigger] r.0[i]).filled == level[i].quantity by {
                assert(r.0[j] == t.0[j - 1]);
                assert(tail[j - 1] == level[j]);
                assert(i > 0);
                assert(r.0[i] == t.0[i - 1]);
                assert(tail[i - 1] == level[i]);
            }
        } else {
            let q = take_qty(need, o);
            lemma_sweep_level_time_priority(tail, price, taker, (need - q) as nat, next_id + 1);
            lemma_sweep_level_bounds(tail, price, taker, (need - q) as nat, next_id + 1);
            let t = sweep_level(tail, price, taker, (need - q) as nat, next_id + 1);
            assert forall|i: int, j: int|
                0 <= i < j < level.len() && (#[trigger] r.0[j]).filled > level[j].filled && is_open(level[i])
                    && level[i].user_id@ != taker implies (#[trigger] r.0[i]).filled == level[i].quantity by {
                assert(r.0[j] == t.0[j - 1]);
                assert(tail[j - 1] == level[j]);
                if i == 0 {
                    if need - q == 0 {
                        assert(t.0 == tail);
                    }
                    assert(q == open_qty(o));
                } else {
                    assert(r.0[i] == t.0[i - 1]);
                    assert(tail[i - 1] == level[i]);
                }
            }
        }
    }
}

/// The facts about `prices` that a sweep of `book` over them relies on.
proof fn lemma_rest_of_prices(book: Map<u64, Seq<Order>>, prices: Seq<u64>)
    requires
        prices.len() > 0,
        prices.no_duplicates(),
        forall|i: int| 0 <= i < prices.len() ==> book.contains_key(#[trigger] prices[i]),
    ensures
        prices.drop_first().no_duplicates(),
        !prices.drop_first().contains(prices[0]),
        forall|i: int|
            0 <= i < prices.drop_first().len() ==> book.contains_key(#[trigger] prices.drop_first()[i]),
        book.contains_key(prices[0]),
{
    let rest = prices.drop_first();
    assert(!rest.contains(prices[0])) by {
        if rest.contains(prices[0]) {
            let j = choose|j: int| 0 <= j < rest.len() && rest[j] == prices[0];
            assert(prices[j + 1] == prices[0]);
        }
    }
    assert forall|i: int| 0 <= i < rest.len() implies book.contains_key(#[trigger] rest[i]) by {
        assert(rest[i] == prices[i + 1]);
    }
}

/// A sweep for nothing changes nothing.
proof fn lemma_sweep_book_nothing_wanted(
    book: Map<u64, Seq<Order>>,
    prices: Seq<u64>,
    limit: u64,
    taker_buys: bool,
    taker: Seq<char>,
    next_id: int,
)
    ensures
        sweep_book(book, prices, limit, taker_buys, taker, 0, next_id).0 == book,
    decreases prices.len(),
{
    if prices.len() > 0 {
        lemma_sweep_book_nothing_wanted(book, prices.drop_first(), limit, taker_buys, taker, next_id);
    }
}

/// A sweep leaves a level the limit does not accept as it was.
proof fn lemma_sweep_book_skips_uncrossed(
    book: Map<u64, Seq<Order>>,
    prices: Seq<u64>,
    limit: u64,
    taker_buys: bool,
    taker: Seq<char>,
    need: nat,
    next_id: int,
    q: u64,
)
    requires
        book.contains_key(q),
        !crosses(q, limit, taker_buys),
    ensures
        sweep_book(book, prices, limit, taker_buys, taker, need, next_id).0.contains_key(q),
        sweep_book(book, prices, limit, taker_buys, taker, need, next_id).0[q] == book[q],
    decreases prices.len(),
{
    if prices.len() > 0 {
        let p0 = prices[0];
        if crosses(p0, limit, taker_buys) && need > 0 {
            let l = sweep_level(book[p0], p0, taker, need, next_id);
            let b2 = book.insert(p0, l.0);
            assert(b2[q] == book[q]);
            lemma_sweep_book_skips_uncrossed(b2, prices.drop_first(), limit, taker_buys, taker, (need - l.2) as nat, next_id + l.1.len(), q);
        } else {
            lemma_sweep_book_skips_uncrossed(book, prices.drop_first(), limit, taker_buys, taker, need, next_id, q);
        }
    }
}

proof fn lemma_sweep_book_time_priority(
    book: Map<u64, Seq<Order>>,
    prices: Seq<u64>,
    limit: u64,
    taker_buys: bool,
    taker: Seq<char>,
    need: nat,
    next_id: int,
)
    requires
        prices.no_duplicates(),
        forall|i: int| 0 <= i < prices.len() ==> book.contains_key(#[trigger] prices[i]),
    ensures
        forall|p: u64|
            book.contains_key(p) ==> #[trigger] time_priority_kept(
                book[p],
                sweep_book(book, prices, limit, taker_buys, taker, need, next_id).0[p],
                taker,
            ),
    decreases prices.len(),
{
    let r = sweep_book(book, prices, limit, taker_buys, taker, need, next_id);
    if prices.len() == 0 {
        assert forall|p: u64| book.contains_key(p) implies #[trigger] time_priority_kept(book[p], r.0[p], taker) by {}
    } else {
        let p0 = prices[0];
        let rest = prices.drop_first();
        lemma_rest_of_prices(book, prices);
        if crosses(p0, limit, taker_buys) && need > 0 {
            let l = sweep_level(book[p0], p0, taker, need, next_id);
            let b2 = book.insert(p0, l.0);
            lemma_sweep_level_time_priority(book[p0], p0, taker, need, next_id);
            lemma_sweep_book_time_priority(b2, rest, limit, taker_buys, taker, (need - l.2) as nat, next_id + l.1.len());
            lemma_sweep_book_frame(b2, rest, limit, taker_buys, taker, (need - l.2) as nat, next_id + l.1.len(), p0);
            let r2 = sweep_book(b2, rest, limit, taker_buys, taker, (need - l.2) as nat, next_id + l.1.len());
            assert(r.0 == r2.0);
            assert forall|p: u64| book.contains_key(p) implies #[trigger] time_priority_kept(book[p], r.0[p], taker) by {
                assert(b2.contains_key(p));
                assert(time_priority_kept(b2[p], r2.0[p], taker));
                if p != p0 {
                    assert(b2[p] == book[p]);
                } else {
                    assert(r2.0[p0] == l.0);
                    assert(b2[p0] == l.0);
                }
            }
        } else {
            lemma_sweep_book_time_priority(book, rest, limit, taker_buys, taker, need, next_id);
            let r2 = sweep_book(book, rest, limit, taker_buys, taker, need, next_id);
            assert(r.0 == r2.0);
            assert forall|p: u64| book.contains_key(p) implies #[trigger] time_priority_kept(book[p], r.0[p], taker) by {
                assert(time_priority_kept(book[p], r2.0[p], taker));
            }
        }
    }
}

proof fn lemma_sweep_book_price_priority(
    book: Map<u64, Seq<Order>>,
    prices: Seq<u64>,
    limit: u64,
    taker_buys: bool,
    taker: Seq<char>,
    need: nat,
    next_id: int,
)
    requires
        prices.no_duplicates(),
        forall|i: int| 0 <= i < prices.len() ==> book.contains_key(#[trigger] prices[i]),
        forall|a: int, b: int|
            0 <= a < b < prices.len() && crosses(#[trigger] prices[b], limit, taker_buys) ==> crosses(
                #[trigger] prices[a],
                limit,
                taker_buys,
            ),
    ensures
        ({
            let r = sweep_book(book, prices, limit, taker_buys, taker, need, next_id);
            forall|a: int, b: int, i: int, j: int|
                #![trigger r.0[prices[a]][i], r.0[prices[b]][j]]
                0 <= a < b < prices.len() && 0 <= j < book[prices[b]].len() && r.0[prices[b]][j].filled
                    > book[prices[b]][j].filled && 0 <= i < book[prices[a]].len() && is_open(
                    book[prices[a]][i],
                ) && book[prices[a]][i].user_id@ != taker ==> r.0[prices[a]][i].filled
                    == book[prices[a]][i].quantity
        }),
    decreases prices.len(),
{
    let r = sweep_book(book, prices, limit, taker_buys, taker, need, next_id);
    if prices.len() > 0 {
        let p0 = prices[0];
        let rest = prices.drop_first();
        lemma_rest_of_prices(book, prices);
        assert forall|a: int, b: int|
            0 <= a < b < rest.len() && crosses(#[trigger] rest[b], limit, taker_buys) implies crosses(
            #[trigger] rest[a],
            limit,
            taker_buys,
        ) by {
            assert(rest[a] == prices[a + 1]);
            assert(rest[b] == prices[b + 1]);
        }
        if crosses(p0, limit, taker_buys) && need > 0 {
            let l = sweep_level(book[p0], p0, taker, need, next_id);
            let b2 = book.insert(p0, l.0);
            let need2 = (need - l.2) as nat;
            let id2 = next_id + l.1.len();
            lemma_sweep_level_short(book[p0], p0, taker, need, next_id);
            lemma_sweep_level_bounds(book[p0], p0, taker, need, next_id);
            lemma_sweep_book_price_priority(b2, rest, limit, taker_buys, taker, need2, id2);
            lemma_sweep_book_frame(b2, rest, limit, taker_buys, taker, need2, id2, p0);
            if need2 == 0 {
                lemma_sweep_book_nothing_wanted(b2, rest, limit, taker_buys, taker, id2);
            }
            assert forall|a: int, b: int, i: int, j: int|
                0 <= a < b < prices.len() && 0 <= j < book[prices[b]].len() && (#[trigger] r.0[prices[b]][j]).filled
                    > book[prices[b]][j].filled && 0 <= i < book[prices[a]].len() && is_open(
                    book[prices[a]][i],
                ) && book[prices[a]][i].user_id@ != taker implies (#[trigger] r.0[prices[a]][i]).filled
                    == book[prices[a]][i].quantity by {
                assert(prices[b] == rest[b - 1]);
                assert(prices[b] != p0);
                assert(b2[prices[b]] == book[prices[b]]);
                if a == 0 {
                    assert(r.0[p0] == l.0);
                    if l.2 == need {
                        assert(r.0 == b2);
                    }
                } else {
                    assert(prices[a] == rest[a - 1]);
                    assert(prices[a] != p0);
                    assert(b2[prices[a]] == book[prices[a]]);
                    assert(r.0[rest[a - 1]][i] == r.0[prices[a]][i]);
                    assert(r.0[rest[b - 1]][j] == r.0[prices[b]][j]);
                }
            }
        } else {
            lemma_sweep_book_price_priority(book, rest, limit, taker_buys, taker, need, next_id);
            if need == 0 {
                lemma_sweep_book_nothing_wanted(book, rest, limit, taker_buys, taker, next_id);
            }
            assert forall|a: int, b: int, i: int, j: int|
                0 <= a < b < prices.len() && 0 <= j < book[prices[b]].len() && (#[trigger] r.0[prices[b]][j]).filled
                    > book[prices[b]][j].filled && 0 <= i < book[prices[a]].len() && is_open(
                    book[prices[a]][i],
                ) && book[prices[a]][i].user_id@ != taker implies (#[trigger] r.0[prices[a]][i]).filled
                    == book[prices[a]][i].quantity by {
                assert(prices[b] == rest[b - 1]);
                if a == 0 {
                    if need > 0 {
                        assert(!crosses(prices[0], limit, taker_buys));
                        assert(!crosses(prices[b], limit, taker_buys));
                        lemma_sweep_book_skips_uncrossed(book, rest, limit, taker_buys, taker, need, next_id, prices[b]);
                        assert(r.0[prices[b]] == book[prices[b]]);
                    }
                } else {
                    assert(prices[a] == rest[a - 1]);
                    assert(r.0[rest[a - 1]][i] == r.0[prices[a]][i]);
                    assert(r.0[rest[b - 1]][j] == r.0[prices[b]][j]);
                }
            }
        }
    }
}

/// Cleanup after a match: pruning leaves no empty level and no order that
/// is filled in full, and keeps each open order of a level in its order.
pub proof fn lemma_pruned_levels_are_open(m: Map<u64, Seq<Order>>)
    ensures
        forall|p: u64| #[trigger] prune(m).contains_key(p) ==> prune(m)[p].len() > 0 && m.contains_key(p)
            && prune(m)[p] == open_part(m[p]),
        forall|p: u64, i: int|
            prune(m).contains_key(p) && 0 <= i < prune(m)[p].len() ==> is_open(#[trigger] prune(m)[p][i]),
{
    assert forall|p: u64, i: int|
        prune(m).contains_key(p) && 0 <= i < prune(m)[p].len() implies is_open(#[trigger] prune(m)[p][i]) by {
        lemma_open_part_elems(m[p]);
        assert(prune(m)[p] == open_part(m[p]));
    }
}

/// Resting keeps time order: an order that does not trade in full joins the
/// end of the level of its price, behind every order already there, which
/// keep their places; the other levels stay as they were. An order that
/// traded in full leaves the side as it was.
pub proof fn lemma_rest_order_appends(book: Map<u64, Seq<Order>>, o: Order)
    ensures
        o.filled == o.quantity ==> rest_order(book, o) == book,
        o.filled != o.quantity ==> ({
            let after = rest_order(book, o);
            let before = if book.contains_key(o.price) {
                book[o.price]
            } else {
                Seq::<Order>::empty()
            };
            &&& after.contains_key(o.price)
            &&& after[o.price].len() == before.len() + 1
            &&& after[o.price][before.len() as int] == o
            &&& forall|i: int| 0 <= i < before.len() ==> #[trigger] after[o.price][i] == before[i]
            &&& forall|q: u64|
                q != o.price ==> (#[trigger] after.contains_key(q) == book.contains_key(q) && (
                book.contains_key(q) ==> after[q] == book[q]))
        }),
{
}

/// Whether an order's id is not `id`.
pub open spec fn other_id(id: Seq<char>) -> spec_fn(Order) -> bool {
    |o: Order| o.order_id@ != id
}

/// Whether an order is `user`'s and still has quantity open.
pub open spec fn open_of_user(user: Seq<char>) -> spec_fn(Order) -> bool {
    |o: Order| o.user_id@ == user && is_open(o)
}

/// Cancelling keeps exactly the other orders of a level, in their order:
/// the level without its orders of id `id` is the level filtered to the
/// orders whose id is not `id`, so it holds an order exactly when the level
/// does and the order's id is not `id`.
pub proof fn lemma_without_order_is_filter(level: Seq<Order>, id: Seq<char>)
    ensures
        without_order(level, id) == level.filter(other_id(id)),
        forall|o: Order| #[trigger]
            without_order(level, id).contains(o) <==> level.contains(o) && o.order_id@ != id,
    decreases level.len(),
{
    reveal(Seq::filter);
    if level.len() > 0 {
        let d = level.drop_last();
        lemma_without_order_is_filter(d, id);
        reveal(Seq::filter);
        assert(level[level.len() - 1] == level.last());
        assert(level.filter(other_id(id)) == if other_id(id)(level.last()) {
            d.filter(other_id(id)).push(level.last())
        } else {
            d.filter(other_id(id))
        });
        assert(d.push(level.last()) =~= level);
        assert forall|o: Order| #[trigger]
            without_order(level, id).contains(o) <==> level.contains(o) && o.order_id@ != id by {
            if level.contains(o) && o.order_id@ != id {
                let i = choose|i: int| 0 <= i < level.len() && level[i] == o;
                if i < d.len() {
                    assert(d[i] == o);
                    assert(d.contains(o));
                    let w = without_order(d, id);
                    assert(w.contains(o));
                    let j = choose|j: int| 0 <= j < w.len() && w[j] == o;
                    if level.last().order_id@ != id {
                        assert(w.push(level.last())[j] == o);
                    }
                } else {
                    assert(without_order(level, id) == without_order(d, id).push(level.last()));
                    assert(without_order(level, id)[without_order(d, id).len() as int] == o);
                }
            }
            if without_order(level, id).contains(o) {
                let w = without_order(d, id);
                let j = choose|j: int| 0 <= j < without_order(level, id).len() && without_order(level, id)[j] == o;
                if level.last().order_id@ == id || j < w.len() {
                    assert(w[j] == o);
                    assert(w.contains(o));
                    let i = choose|i: int| 0 <= i < d.len() && d[i] == o;
                    assert(level[i] == o);
                } else {
                    assert(o == level.last());
                }
            }
        }
    }
}

/// The open orders a user has in a level are the level filtered to the
/// orders of that user that still have quantity open, in the level's order:
/// every such order is listed, and nothing else.
pub proof fn lemma_user_open_is_filter(level: Seq<Order>, user: Seq<char>)
    ensures
        user_open_in_level(level, user) == level.filter(open_of_user(user)),
        forall|o: Order| #[trigger]
            user_open_in_level(level, user).contains(o) <==> level.contains(o) && o.user_id@ == user
                && is_open(o),
    decreases level.len(),
{
    reveal(Seq::filter);
    if level.len() > 0 {
        let d = level.drop_last();
        lemma_user_open_is_filter(d, user);
        reveal(Seq::filter);
        assert(level[level.len() - 1] == level.last());
        assert(level.filter(open_of_user(user)) == if open_of_user(user)(level.last()) {
            d.filter(open_of_user(user)).push(level.last())
        } else {
            d.filter(open_of_user(user))
        });
        let w = user_open_in_level(d, user);
        let keep = level.last().user_id@ == user && is_open(level.last());
        assert forall|o: Order| #[trigger]
            user_open_in_level(level, user).contains(o) <==> level.contains(o) && o.user_id@ == user
                && is_open(o) by {
            if level.contains(o) && o.user_id@ == user && is_open(o) {
                let i = choose|i: int| 0 <= i < level.len() && level[i] == o;
                if i < d.len() {
                    assert(d[i] == o);
                    assert(d.contains(o));
                    assert(w.contains(o));
                    let j = choose|j: int| 0 <= j < w.len() && w[j] == o;
                    if keep {
                        assert(w.push(level.last())[j] == o);
                    }
                } else {
                    assert(user_open_in_level(level, user)[w.len() as int] == o);
                }
            }
            if user_open_in_level(level, user).contains(o) {
                let r = user_open_in_level(level, user);
                let j = choose|j: int| 0 <= j < r.len() && r[j] == o;
                if !keep || j < w.len() {
                    assert(w[j] == o);
                    assert(w.contains(o));
                    let i = choose|i: int| 0 <= i < d.len() && d[i] == o;
                    assert(level[i] == o);
                } else {
                    assert(o == level.last());
                }
            }
        }
    }
}

// ---------------------------------------------------------------------------
// The order book
// ---------------------------------------------------------------------------

impl Orderbook {
    /// The market this book trades.
    pub closed spec fn market_name(&self) -> Seq<char> {
        self.market@
    }

    /// The trade id of the last fill recorded by this book.
    pub closed spec fn last_trade(&self) -> int {
        self.last_trade_id as int
    }

    /// The fields that matching and cancelling never change.
    pub closed spec fn same_header(&self, other: Orderbook) -> bool {
        &&& self.market == other.market
        &&& self.current_price == other.current_price
        &&& self.orders@ == other.orders@
    }

    pub closed spec fn bid_levels(&self) -> Map<u64, Seq<Order>> {
        levels(self.bids)
    }

    pub closed spec fn ask_levels(&self) -> Map<u64, Seq<Order>> {
        levels(self.asks)
    }

    /// Every bid rests at its price, is a buy and is open; likewise for asks.
    pub open spec fn wf(&self) -> bool {
        &&& side_wf(self.bid_levels(), OrderSide::Buy)
        &&& side_wf(self.ask_levels(), OrderSide::Sell)
        &&& levels_nonempty(self.bid_levels())
        &&& levels_nonempty(self.ask_levels())
        &&& self.last_trade() >= 0
    }

    /// Matching an incoming buy `order` against the asks, lowest price first.
    pub open spec fn buy_sweep(&self, order: Order) -> (Map<u64, Seq<Order>>, Seq<Fill>, nat) {
        sweep_book(
            self.ask_levels(),
            crate::price_ladder::ascending(self.ask_levels().dom()),
            order.price,
            true,
            order.user_id@,
            order.quantity as nat,
            self.last_trade() + 1,
        )
    }

    /// Matching an incoming sell `order` against the bids, highest price first.
    pub open spec fn sell_sweep(&self, order: Order) -> (Map<u64, Seq<Order>>, Seq<Fill>, nat) {
        sweep_book(
            self.bid_levels(),
            crate::price_ladder::descending(self.bid_levels().dom()),
            order.price,
            false,
            order.user_id@,
            order.quantity as nat,
            self.last_trade() + 1,
        )
    }

    /// Matching `order` against the opposite side of the book.
    pub open spec fn taker_sweep(&self, order: Order) -> (Map<u64, Seq<Order>>, Seq<Fill>, nat) {
        if order.side == OrderSide::Buy {
            self.buy_sweep(order)
        } else {
            self.sell_sweep(order)
        }
    }

    /// The prices of each side are finitely many.
    pub proof fn lemma_sides_are_finite(&self)
        ensures
            self.bid_levels().dom().finite(),
            self.ask_levels().dom().finite(),
    {
        broadcast use lemma_levels_dom;

    }

    /// In every state the book reaches, each resting order sits at its own
    /// price on its own side and still has quantity open, no price level is
    /// empty, and the last trade id is not negative.
    pub proof fn lemma_resting_orders_are_open(&self)
        requires
            self.wf(),
        ensures
            side_wf(self.bid_levels(), OrderSide::Buy),
            side_wf(self.ask_levels(), OrderSide::Sell),
            levels_nonempty(self.bid_levels()),
            levels_nonempty(self.ask_levels()),
            self.last_trade() >= 0,
    {
    }

    /// An empty book for `market`.
    pub fn new(market: String) -> (book: Self)
        ensures
            book.market_name() == market@,
            book.bid_levels() == Map::<u64, Seq<Order>>::empty(),
            book.ask_levels() == Map::<u64, Seq<Order>>::empty(),
            book.last_trade() == 0,
            book.wf(),
    {
        let book = Orderbook {
            market,
            bids: BTreeMap::new(),
            asks: BTreeMap::new(),
            orders: HashMap::new(),
            last_trade_id: 0,
            current_price: 0,
        };
        assert(book.bid_levels() =~= Map::<u64, Seq<Order>>::empty());
        assert(book.ask_levels() =~= Map::<u64, Seq<Order>>::empty());
        book
    }

    /// The market this book trades.
    pub fn ticker(&self) -> (t: &str)
        ensures
            t@ == self.market_name(),
    {
        self.market.as_str()
    }

    /// A copy of the whole book.
    pub fn get_snapshot(&self) -> (copy: Orderbook)
        ensures
            copy.market_name() == self.market_name(),
            copy.bid_levels() == self.bid_levels(),
            copy.ask_levels() == self.ask_levels(),
            copy.last_trade() == self.last_trade(),
            copy.same_header(*self),
            copy.wf() == self.wf(),
    {
        Orderbook {
            market: self.market.clone(),
            bids: self.bids.clone(),
            asks: self.asks.clone(),
            orders: self.orders.clone(),
            last_trade_id: self.last_trade_id,
            current_price: self.current_price,
        }
    }

    /// Matches an incoming sell `order` against the bids, highest price first
    /// and in time priority within a price, never against the seller's own
    /// bids; then drops the bids that are filled and the levels left empty.
    /// Returns the fills and the quantity traded.
    pub fn match_ask(&mut self, order: &Order) -> (res: Result<(Vec<Fill>, u64), String>)
        requires
            old(self).wf(),
            old(self).last_trade() + old(self).sell_sweep(*order).1.len() <= i64::MAX,
        ensures
            final(self).wf(),
            ({
                let s = old(self).sell_sweep(*order);
                &&& res matches Ok(r) && r.0@ == s.1 && r.1 == s.2
                &&& final(self).bid_levels() == prune(s.0)
                &&& final(self).ask_levels() == old(self).ask_levels()
                &&& final(self).last_trade() == old(self).last_trade() + s.1.len()
            }),
            final(self).same_header(*old(self)),
    {
        broadcast use lemma_levels_dom;

        let keys = descending_keys(&self.bids);
        let mut fills: Vec<Fill> = Vec::new();
        let mut last_id = self.last_trade_id;
        proof {
            let s = self.sell_sweep(*order);
            lemma_sweep_book_shape(
                self.bid_levels(),
                keys@,
                order.price,
                false,
                order.user_id@,
                order.quantity as nat,
                self.last_trade() + 1,
                OrderSide::Buy,
            );
            assert(fills@ + s.1 =~= s.1);
        }
        let executed = sweep_book_exec(
            &mut self.bids,
            &keys,
            order.price,
            false,
            &order.user_id,
            order.quantity,
            &mut last_id,
            &mut fills,
        );
        self.last_trade_id = last_id;
        let ghost swept = self.bid_levels();
        prune_exec(&mut self.bids);
        proof {
            lemma_prune_wf(swept, OrderSide::Buy);
        }
        Ok((fills, executed))
    }

    /// Matches an incoming buy `order` against the asks, lowest price first
    /// and in time priority within a price, never against the buyer's own
    /// asks; then drops the asks that are filled and the levels left empty.
    /// Returns the fills and the quantity traded.
    pub fn match_bid(&mut self, order: &Order) -> (res: Result<(Vec<Fill>, u64), String>)
        requires
            old(self).wf(),
            old(self).last_trade() + old(self).buy_sweep(*order).1.len() <= i64::MAX,
        ensures
            final(self).wf(),
            ({
                let s = old(self).buy_sweep(*order);
                &&& res matches Ok(r) && r.0@ == s.1 && r.1 == s.2
                &&& final(self).ask_levels() == prune(s.0)
                &&& final(self).bid_levels() == old(self).bid_levels()
                &&& final(self).last_trade() == old(self).last_trade() + s.1.len()
            }),
            final(self).same_header(*old(self)),
    {
        broadcast use lemma_levels_dom;

        let keys = ascending_keys(&self.asks);
        let mut fills: Vec<Fill> = Vec::new();
        let mut last_id = self.last_trade_id;
        proof {
            let s = self.buy_sweep(*order);
            assert forall|i: int| 0 <= i < keys@.len() implies self.asks@.contains_key(#[trigger] keys@[i]) by {
                assert(keys@.contains(keys@[i]));
            }
            lemma_sweep_book_shape(
                self.ask_levels(),
                keys@,
                order.price,
                true,
                order.user_id@,
                order.quantity as nat,
                self.last_trade() + 1,
                OrderSide::Sell,
            );
            assert(fills@ + s.1 =~= s.1);
        }
        let executed = sweep_book_exec(
            &mut self.asks,
            &keys,
            order.price,
            true,
            &order.user_id,
            order.quantity,
            &mut last_id,
            &mut fills,
        );
        self.last_trade_id = last_id;
        let ghost swept = self.ask_levels();
        prune_exec(&mut self.asks);
        proof {
            lemma_prune_wf(swept, OrderSide::Sell);
        }
        Ok((fills, executed))
    }

    /// Adds `order` to the book: matches it against the opposite side, records
    /// how much of it traded in `order.filled`, and unless it traded in full
    /// appends it to the level of its price on its own side.
    /// Returns the fills and the quantity traded.
    pub fn add_order(&mut self, order: &mut Order) -> (res: Result<(Vec<Fill>, u64), String>)
        requires
            old(self).wf(),
            old(self).last_trade() + old(self).taker_sweep(*old(order)).1.len() <= i64::MAX,
        ensures
            final(self).wf(),
            ({
                let o = *old(order);
                let s = old(self).taker_sweep(o);
                let placed = with_filled(o, s.2 as u64);
                &&& *final(order) == placed
                &&& res matches Ok(r) && r.0@ == s.1 && r.1 == s.2
                &&& final(self).last_trade() == old(self).last_trade() + s.1.len()
                &&& if o.side == OrderSide::Buy {
                    &&& final(self).ask_levels() == prune(s.0)
                    &&& final(self).bid_levels() == rest_order(old(self).bid_levels(), placed)
                } else {
                    &&& final(self).bid_levels() == prune(s.0)
                    &&& final(self).ask_levels() == rest_order(old(self).ask_levels(), placed)
                }
            }),
            final(self).same_header(*old(self)),
    {
        broadcast use lemma_levels_dom;

        proof {
            crate::price_ladder::lemma_price_order();
        }
        let ghost o = *order;
        let ghost s = self.taker_sweep(o);
        if order.side == OrderSide::Buy {
            let (fills, executed_qty) = match self.match_bid(order) {
                Ok(r) => r,
                Err(_) => {
                    return Err(String::new());
                },
            };
            proof {
                lemma_sweep_book_bounds(
                    old(self).ask_levels(),
                    crate::price_ladder::ascending(old(self).ask_levels().dom()),
                    o.price,
                    true,
                    o.user_id@,
                    o.quantity as nat,
                    old(self).last_trade() + 1,
                );
            }
            order.filled = executed_qty;
            if executed_qty == order.quantity {
                Ok((fills, executed_qty))
            } else {
                proof {
                    assert(order.side == OrderSide::Buy);
                    assert(order.filled < order.quantity);
                }
                rest_order_exec(&mut self.bids, order);
                Ok((fills, executed_qty))
            }
        } else {
            let (fills, executed_qty) = match self.match_ask(order) {
                Ok(r) => r,
                Err(_) => {
                    return Err(String::new());
                },
            };
            proof {
                lemma_sweep_book_bounds(
                    old(self).bid_levels(),
                    crate::price_ladder::descending(old(self).bid_levels().dom()),
                    o.price,
                    false,
                    o.user_id@,
                    o.quantity as nat,
                    old(self).last_trade() + 1,
                );
            }
            order.filled = executed_qty;
            if executed_qty == order.quantity {
                Ok((fills, executed_qty))
            } else {
                proof {
                    assert(order.side == OrderSide::Sell);
                    assert(order.filled < order.quantity);
                }
                rest_order_exec(&mut self.asks, order);
                Ok((fills, executed_qty))
            }
        }
    }

    /// Aggregated depth: for each level with open quantity, its price and the
    /// sum of what is open on its orders; bids highest price first, asks
    /// lowest first.
    pub fn get_depth(&self) -> (snap: OrderbookSnapshot)
        requires
            self.wf(),
        ensures
            rows_view(snap.bids@) == depth_rows(
                self.bid_levels(),
                crate::price_ladder::descending(self.bid_levels().dom()),
            ),
            rows_view(snap.asks@) == depth_rows(
                self.ask_levels(),
                crate::price_ladder::ascending(self.ask_levels().dom()),
            ),
    {
        broadcast use lemma_levels_dom;

        let bid_prices = descending_keys(&self.bids);
        let ask_prices = ascending_keys(&self.asks);
        proof {
            assert forall|i: int| 0 <= i < ask_prices@.len() implies self.asks@.contains_key(
                #[trigger] ask_prices@[i],
            ) by {
                assert(ask_prices@.contains(ask_prices@[i]));
            }
        }
        let bids = depth_side(&self.bids, &bid_prices, OrderSide::Buy);
        let asks = depth_side(&self.asks, &ask_prices, OrderSide::Sell);
        OrderbookSnapshot { bids, asks }
    }

    /// The open orders of `user_id`: its bids, then its asks, each side
    /// lowest price first and in time priority within a price.
    pub fn get_open_orders(&self, user_id: &str) -> (orders: Vec<Order>)
        ensures
            orders@ == user_open_in_book(
                self.bid_levels(),
                crate::price_ladder::ascending(self.bid_levels().dom()),
                user_id@,
            ) + user_open_in_book(
                self.ask_levels(),
                crate::price_ladder::ascending(self.ask_levels().dom()),
                user_id@,
            ),
    {
        broadcast use lemma_levels_dom;

        let user = <String as StringExecFns>::from_str(user_id);
        let bid_prices = ascending_keys(&self.bids);
        let ask_prices = ascending_keys(&self.asks);
        proof {
            assert forall|i: int| 0 <= i < ask_prices@.len() implies self.asks@.contains_key(
                #[trigger] ask_prices@[i],
            ) by {
                assert(ask_prices@.contains(ask_prices@[i]));
            }
            assert forall|i: int| 0 <= i < bid_prices@.len() implies self.bids@.contains_key(
                #[trigger] bid_prices@[i],
            ) by {
                assert(bid_prices@.contains(bid_prices@[i]));
            }
        }
        let mut orders: Vec<Order> = Vec::new();
        user_open_side(&self.bids, &bid_prices, &user, &mut orders);
        user_open_side(&self.asks, &ask_prices, &user, &mut orders);
        proof {
            assert(orders@ =~= user_open_in_book(self.bid_levels(), bid_prices@, user_id@) + user_open_in_book(
                self.ask_levels(),
                ask_prices@,
                user_id@,
            ));
        }
        orders
    }

    /// Cancels the bid `order_id`: in the first bid level (lowest price first)
    /// that holds an order with that id, removes the orders with that id and
    /// returns the level's price; a level left empty is dropped.
    /// Fails with "Order not found" when no bid has that id.
    pub fn cancel_bid(&mut self, order_id: &str) -> (res: Result<u64, String>)
        requires
            old(self).wf(),
        ensures
            final(self).wf(),
            final(self).ask_levels() == old(self).ask_levels(),
            final(self).last_trade() == old(self).last_trade(),
            final(self).same_header(*old(self)),
            match first_level_holding(
                old(self).bid_levels(),
                crate::price_ladder::ascending(old(self).bid_levels().dom()),
                order_id@,
            ) {
                Some(p) => res == Ok::<u64, String>(p) && final(self).bid_levels() == cancel_level(
                    old(self).bid_levels(),
                    p,
                    order_id@,
                ),
                None => res matches Err(e) && e@ == "Order not found"@ && final(self).bid_levels()
                    == old(self).bid_levels(),
            },
    {
        broadcast use lemma_levels_dom;

        let id = <String as StringExecFns>::from_str(order_id);
        let prices = ascending_keys(&self.bids);
        proof {
            assert forall|i: int| 0 <= i < prices@.len() implies self.bids@.contains_key(
                #[trigger] prices@[i],
            ) by {
                assert(prices@.contains(prices@[i]));
            }
        }
        match cancel_in_side(&mut self.bids, &prices, &id) {
            Some(p) => {
                proof {
                    lemma_cancel_level_wf(old(self).bid_levels(), p, order_id@, OrderSide::Buy);
                }
                Ok(p)
            },
            None => Err(<String as StringExecFns>::from_str("Order not found")),
        }
    }

    /// Cancels the ask `order_id`: in the first ask level (lowest price first)
    /// that holds an order with that id, removes the orders with that id and
    /// returns the level's price; a level left empty is dropped.
    /// Fails with "Order not found" when no ask has that id.
    pub fn cancel_ask(&mut self, order_id: &str) -> (res: Result<u64, String>)
        requires
            old(self).wf(),
        ensures
            final(self).wf(),
            final(self).bid_levels() == old(self).bid_levels(),
            final(self).last_trade() == old(self).last_trade(),
            final(self).same_header(*old(self)),
            match first_level_holding(
                old(self).ask_levels(),
                crate::price_ladder::ascending(old(self).ask_levels().dom()),
                order_id@,
            ) {
                Some(p) => res == Ok::<u64, String>(p) && final(self).ask_levels() == cancel_level(
                    old(self).ask_levels(),
                    p,
                    order_id@,
                ),
                None => res matches Err(e) && e@ == "Order not found"@ && final(self).ask_levels()
                    == old(self).ask_levels(),
            },
    {
        broadcast use lemma_levels_dom;

        let id = <String as StringExecFns>::from_str(order_id);
        let prices = ascending_keys(&self.asks);
        proof {
            assert forall|i: int| 0 <= i < prices@.len() implies self.asks@.contains_key(
                #[trigger] prices@[i],
            ) by {
                assert(prices@.contains(prices@[i]));
            }
        }
        match cancel_in_side(&mut self.asks, &prices, &id) {
            Some(p) => {
                proof {
                    lemma_cancel_level_wf(old(self).ask_levels(), p, order_id@, OrderSide::Sell);
                }
                Ok(p)
            },
            None => Err(<String as StringExecFns>::from_str("Order not found")),
        }
    }

    /// Whether `quantity` more trade ids fit after the last one; enough
    /// for any order of that quantity to be added (see
    /// `lemma_trade_ids_suffice`).
    pub fn can_number_fills(&self, quantity: u64) -> (ok: bool)
        ensures
            ok == (self.last_trade() + quantity <= i64::MAX),
    {
        (quantity as i128) + (self.last_trade_id as i128) <= i64::MAX as i128
    }

    /// An order never produces more fills than units of its quantity, so
    /// room for `order.quantity` trade ids is room enough to add it.
    pub proof fn lemma_trade_ids_suffice(book: Orderbook, order: Order)
        requires
            book.last_trade() + order.quantity <= i64::MAX,
        ensures
            book.last_trade() + book.taker_sweep(order).1.len() <= i64::MAX,
            book.last_trade() + book.buy_sweep(order).1.len() <= i64::MAX,
            book.last_trade() + book.sell_sweep(order).1.len() <= i64::MAX,
    {
        lemma_sweep_book_bounds(
            book.ask_levels(),
            crate::price_ladder::ascending(book.ask_levels().dom()),
            order.price,
            true,
            order.user_id@,
            order.quantity as nat,
            book.last_trade() + 1,
        );
        lemma_sweep_book_bounds(
            book.bid_levels(),
            crate::price_ladder::descending(book.bid_levels().dom()),
            order.price,
            false,
            order.user_id@,
            order.quantity as nat,
            book.last_trade() + 1,
        );
    }

    /// Trade ids on one book only grow: when a later match numbers its fills
    /// on from at least where an earlier match left the last trade id, each
    /// fill of the later match has a larger id than each fill of the earlier.
    pub proof fn lemma_trade_ids_increase(b1: Orderbook, o1: Order, b2: Orderbook, o2: Order)
        requires
            b2.last_trade() >= b1.last_trade() + b1.taker_sweep(o1).1.len(),
            b2.last_trade() + b2.taker_sweep(o2).1.len() <= i64::MAX,
        ensures
            forall|i: int, j: int|
                0 <= i < b1.taker_sweep(o1).1.len() && 0 <= j < b2.taker_sweep(o2).1.len() ==> (#[trigger] b1.taker_sweep(
                    o1,
                ).1[i]).trade_id < (#[trigger] b2.taker_sweep(o2).1[j]).trade_id,
    {
        Orderbook::lemma_taker_fills(b1, o1);
        Orderbook::lemma_taker_fills(b2, o2);
        let f1 = b1.taker_sweep(o1).1;
        let f2 = b2.taker_sweep(o2).1;
        assert forall|i: int, j: int| 0 <= i < f1.len() && 0 <= j < f2.len() implies (#[trigger] f1[i]).trade_id
            < (#[trigger] f2[j]).trade_id by {
            assert(f1[i].trade_id == (b1.last_trade() + 1 + i) as i64);
            assert(f2[j].trade_id == (b2.last_trade() + 1 + j) as i64);
        }
    }

    /// Matching and cancelling keep the book's market.
    pub proof fn lemma_same_header_keeps_market(a: Orderbook, b: Orderbook)
        requires
            a.same_header(b),
        ensures
            a.market_name() == b.market_name(),
    {
    }

    /// A match against an empty side trades nothing and leaves the side as
    /// it was.
    pub proof fn lemma_sweep_of_empty_side(book: Orderbook, order: Order)
        ensures
            book.ask_levels().dom().is_empty() ==> book.buy_sweep(order) == (
            book.ask_levels(),
            Seq::<Fill>::empty(),
            0nat,
            ),
            book.bid_levels().dom().is_empty() ==> book.sell_sweep(order) == (
            book.bid_levels(),
            Seq::<Fill>::empty(),
            0nat,
            ),
    {
        broadcast use lemma_levels_dom;

        if book.ask_levels().dom().is_empty() {
            let dom = book.ask_levels().dom();
            crate::price_ladder::lemma_ladders(dom);
            let a = crate::price_ladder::ascending(dom);
            assert(a.len() == 0) by {
                if a.len() > 0 {
                    assert(a.contains(a[0]));
                    assert(dom.contains(a[0]));
                }
            }
        }
        if book.bid_levels().dom().is_empty() {
            let dom = book.bid_levels().dom();
            crate::price_ladder::lemma_ladders(dom);
            let a = crate::price_ladder::ascending(dom);
            assert(a.len() == 0) by {
                if a.len() > 0 {
                    assert(a.contains(a[0]));
                    assert(dom.contains(a[0]));
                }
            }
            assert(crate::price_ladder::descending(dom).len() == 0);
        }
    }

    /// A match keeps the prices of the side it sweeps; only the pruning after
    /// it drops levels.
    pub proof fn lemma_sweep_keeps_prices(book: Orderbook, order: Order)
        requires
            book.wf(),
        ensures
            book.buy_sweep(order).0.dom() == book.ask_levels().dom(),
            book.sell_sweep(order).0.dom() == book.bid_levels().dom(),
    {
        broadcast use lemma_levels_dom;

        let da = book.ask_levels().dom();
        crate::price_ladder::lemma_ladders(da);
        lemma_ladder_in_dom(book.ask_levels(), crate::price_ladder::ascending(da));
        assert(side_shape(book.ask_levels(), OrderSide::Sell));
        lemma_sweep_book_shape(
            book.ask_levels(),
            crate::price_ladder::ascending(da),
            order.price,
            true,
            order.user_id@,
            order.quantity as nat,
            book.last_trade() + 1,
            OrderSide::Sell,
        );
        let db = book.bid_levels().dom();
        crate::price_ladder::lemma_ladders(db);
        lemma_ladder_in_dom(book.bid_levels(), crate::price_ladder::descending(db));
        assert(side_shape(book.bid_levels(), OrderSide::Buy));
        lemma_sweep_book_shape(
            book.bid_levels(),
            crate::price_ladder::descending(db),
            order.price,
            false,
            order.user_id@,
            order.quantity as nat,
            book.last_trade() + 1,
            OrderSide::Buy,
        );
    }

    /// Matching an order against the book: it trades at most its quantity;
    /// every fill is at a price the order's limit accepts, trades at least
    /// one unit, and is against another user's order; the fills add up to
    /// the quantity traded; trade ids continue from the book's last one; and
    /// better prices trade first (a buyer's fills rise in price, a seller's
    /// fall).
    pub proof fn lemma_taker_fills(book: Orderbook, order: Order)
        ensures
            ({
                let s = book.taker_sweep(order);
                let buys = order.side == OrderSide::Buy;
                &&& s.2 <= order.quantity
                &&& fills_total(s.1) == s.2
                &&& forall|k: int|
                    0 <= k < s.1.len() ==> {
                        &&& crosses((#[trigger] s.1[k]).price, order.price, buys)
                        &&& s.1[k].qty >= 1
                        &&& s.1[k].other_user_id@ != order.user_id@
                        &&& s.1[k].trade_id == (book.last_trade() + 1 + k) as i64
                    }
                &&& buys ==> forall|a: int, b: int| 0 <= a < b < s.1.len() ==> s.1[a].price <= s.1[b].price
                &&& !buys ==> forall|a: int, b: int| 0 <= a < b < s.1.len() ==> s.1[a].price >= s.1[b].price
            }),
    {
        broadcast use lemma_levels_dom;

        if order.side == OrderSide::Buy {
            let dom = book.ask_levels().dom();
            crate::price_ladder::lemma_ladders(dom);
            let prices = crate::price_ladder::ascending(dom);
            lemma_sweep_book_bounds(
                book.ask_levels(),
                prices,
                order.price,
                true,
                order.user_id@,
                order.quantity as nat,
                book.last_trade() + 1,
            );
            lemma_sweep_book_fills(
                book.ask_levels(),
                prices,
                order.price,
                true,
                order.user_id@,
                order.quantity as nat,
                book.last_trade() + 1,
            );
        } else {
            let dom = book.bid_levels().dom();
            crate::price_ladder::lemma_ladders(dom);
            let prices = crate::price_ladder::descending(dom);
            lemma_sweep_book_bounds(
                book.bid_levels(),
                prices,
                order.price,
                false,
                order.user_id@,
                order.quantity as nat,
                book.last_trade() + 1,
            );
            lemma_sweep_book_fills(
                book.bid_levels(),
                prices,
                order.price,
                false,
                order.user_id@,
                order.quantity as nat,
                book.last_trade() + 1,
            );
        }
    }

    /// What the taker gets, the makers give: matching lowers the open
    /// quantity of the opposite side, over the levels it had, by exactly the
    /// quantity traded.
    pub proof fn lemma_makers_give_what_the_taker_gets(book: Orderbook, order: Order)
        requires
            book.wf(),
        ensures
            ({
                let s = book.taker_sweep(order);
                if order.side == OrderSide::Buy {
                    let p = crate::price_ladder::ascending(book.ask_levels().dom());
                    side_total(book.ask_levels(), p) == side_total(prune(s.0), p) + s.2
                } else {
                    let p = crate::price_ladder::descending(book.bid_levels().dom());
                    side_total(book.bid_levels(), p) == side_total(prune(s.0), p) + s.2
                }
            }),
    {
        broadcast use lemma_levels_dom;

        let buys = order.side == OrderSide::Buy;
        let side_book = if buys {
            book.ask_levels()
        } else {
            book.bid_levels()
        };
        let dom = side_book.dom();
        crate::price_ladder::lemma_ladders(dom);
        let prices = if buys {
            crate::price_ladder::ascending(dom)
        } else {
            crate::price_ladder::descending(dom)
        };
        lemma_ladder_in_dom(side_book, prices);
        assert(not_overfilled(side_book)) by {
            assert forall|p: u64, i: int| side_book.contains_key(p) && 0 <= i < side_book[p].len() implies #[trigger] side_book[p][i].filled
                <= side_book[p][i].quantity by {
                assert(is_open(side_book[p][i]));
            }
        }
        lemma_sweep_book_total(side_book, prices, order.price, buys, order.user_id@, order.quantity as nat, book.last_trade() + 1);
        let s = sweep_book(side_book, prices, order.price, buys, order.user_id@, order.quantity as nat, book.last_trade() + 1);
        lemma_prune_total(s.0, prices);
    }

    /// Time priority: at each price of the opposite side, when an order
    /// trades, every earlier order there of another user that was open is
    /// filled in full.
    pub proof fn lemma_time_priority(book: Orderbook, order: Order)
        ensures
            ({
                let s = book.taker_sweep(order);
                let side = if order.side == OrderSide::Buy {
                    book.ask_levels()
                } else {
                    book.bid_levels()
                };
                forall|p: u64|
                    side.contains_key(p) ==> #[trigger] time_priority_kept(side[p], s.0[p], order.user_id@)
            }),
    {
        broadcast use lemma_levels_dom;

        let buys = order.side == OrderSide::Buy;
        let side_book = if buys {
            book.ask_levels()
        } else {
            book.bid_levels()
        };
        let dom = side_book.dom();
        crate::price_ladder::lemma_ladders(dom);
        let prices = if buys {
            crate::price_ladder::ascending(dom)
        } else {
            crate::price_ladder::descending(dom)
        };
        lemma_ladder_in_dom(side_book, prices);
        lemma_sweep_book_time_priority(side_book, prices, order.price, buys, order.user_id@, order.quantity as nat, book.last_trade() + 1);
    }

    /// Price priority: an order of another user open on the opposite side at
    /// a better price (lower for a buyer, higher for a seller) is filled in
    /// full before any order at a worse price trades.
    pub proof fn lemma_price_priority(book: Orderbook, order: Order)
        ensures
            ({
                let s = book.taker_sweep(order);
                let buys = order.side == OrderSide::Buy;
                let side = if buys {
                    book.ask_levels()
                } else {
                    book.bid_levels()
                };
                forall|p1: u64, p2: u64, i: int, j: int|
                    #![trigger s.0[p1][i], s.0[p2][j]]
                    side.contains_key(p1) && side.contains_key(p2) && (if buys {
                        p1 < p2
                    } else {
                        p1 > p2
                    }) && 0 <= j < side[p2].len() && s.0[p2][j].filled > side[p2][j].filled && 0 <= i
                        < side[p1].len() && is_open(side[p1][i]) && side[p1][i].user_id@ != order.user_id@
                        ==> s.0[p1][i].filled == side[p1][i].quantity
            }),
    {
        broadcast use lemma_levels_dom;

        let buys = order.side == OrderSide::Buy;
        let side_book = if buys {
            book.ask_levels()
        } else {
            book.bid_levels()
        };
        let dom = side_book.dom();
        crate::price_ladder::lemma_ladders(dom);
        let prices = if buys {
            crate::price_ladder::ascending(dom)
        } else {
            crate::price_ladder::descending(dom)
        };
        lemma_ladder_in_dom(side_book, prices);
        assert forall|a: int, b: int|
            0 <= a < b < prices.len() && crosses(#[trigger] prices[b], order.price, buys) implies crosses(
            #[trigger] prices[a],
            order.price,
            buys,
        ) by {}
        let need = order.quantity as nat;
        let first_id = book.last_trade() + 1;
        lemma_sweep_book_price_priority(side_book, prices, order.price, buys, order.user_id@, need, first_id);
        let s = book.taker_sweep(order);
        assert forall|p1: u64, p2: u64, i: int, j: int|
            side_book.contains_key(p1) && side_book.contains_key(p2) && (if buys {
                p1 < p2
            } else {
                p1 > p2
            }) && 0 <= j < side_book[p2].len() && (#[trigger] s.0[p2][j]).filled > side_book[p2][j].filled && 0
                <= i < side_book[p1].len() && is_open(side_book[p1][i]) && side_book[p1][i].user_id@
                != order.user_id@ implies (#[trigger] s.0[p1][i]).filled == side_book[p1][i].quantity by {
            assert(dom.contains(p1));
            assert(dom.contains(p2));
            assert(prices.contains(p1));
            assert(prices.contains(p2));
            let a = choose|a: int| 0 <= a < prices.len() && prices[a] == p1;
            let b = choose|b: int| 0 <= b < prices.len() && prices[b] == p2;
            if a >= b {
                if a > b {
                    assert(prices[b] < prices[a] || prices[b] > prices[a]);
                }
            }
            assert(a < b);
            assert(s.0[prices[a]][i] == s.0[p1][i]);
            assert(s.0[prices[b]][j] == s.0[p2][j]);
        }
    }

    /// An order that does not trade in full leaves, on the opposite side,
    /// no order of another user at a price its limit accepts: whatever is
    /// left there at such prices is the order's own user's.
    pub proof fn lemma_unfilled_order_meets_no_other_user(book: Orderbook, order: Order)
        requires
            book.wf(),
        ensures
            ({
                let s = book.taker_sweep(order);
                let left = prune(s.0);
                s.2 < order.quantity ==> forall|p: u64, i: int|
                    #![trigger left[p][i]]
                    left.contains_key(p) && crosses(p, order.price, order.side == OrderSide::Buy) && 0 <= i
                        < left[p].len() ==> left[p][i].user_id@ == order.user_id@
            }),
    {
        broadcast use lemma_levels_dom;

        let buys = order.side == OrderSide::Buy;
        let side_book = if buys {
            book.ask_levels()
        } else {
            book.bid_levels()
        };
        let dom = side_book.dom();
        crate::price_ladder::lemma_ladders(dom);
        let prices = if buys {
            crate::price_ladder::ascending(dom)
        } else {
            crate::price_ladder::descending(dom)
        };
        assert forall|i: int| 0 <= i < prices.len() implies side_book.contains_key(#[trigger] prices[i]) by {
            assert(prices.contains(prices[i]));
        }
        let s = sweep_book(
            side_book,
            prices,
            order.price,
            buys,
            order.user_id@,
            order.quantity as nat,
            book.last_trade() + 1,
        );
        assert(s == book.taker_sweep(order));
        lemma_sweep_book_exhausts(
            side_book,
            prices,
            order.price,
            buys,
            order.user_id@,
            order.quantity as nat,
            book.last_trade() + 1,
        );
        lemma_sweep_book_shape(
            side_book,
            prices,
            order.price,
            buys,
            order.user_id@,
            order.quantity as nat,
            book.last_trade() + 1,
            if buys {
                OrderSide::Sell
            } else {
                OrderSide::Buy
            },
        );
        let left = prune(s.0);
        if s.2 < order.quantity {
            assert forall|p: u64, i: int|
                #![trigger left[p][i]]
                left.contains_key(p) && crosses(p, order.price, buys) && 0 <= i < left[p].len() implies
                left[p][i].user_id@ == order.user_id@ by {
                lemma_open_part_elems(s.0[p]);
                assert(left[p] == open_part(s.0[p]));
                assert(is_open(left[p][i]));
                let j = choose|j: int| 0 <= j < s.0[p].len() && s.0[p][j] == left[p][i];
                assert(s.0.contains_key(p));
                assert(prices.contains(p));
                assert(s.0[p][j] == left[p][i]);
            }
        }
    }
}

} // verus!
