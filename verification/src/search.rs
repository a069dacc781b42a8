//! The search for a profitable triangle: given the books of its three
//! markets, price the route and decide which orders to place.
use vstd::prelude::*;
use crate::decimal::{Dec, lt, is_wf};
use crate::filters::{ExchangeInformation, TradeFee, Filter, fee_of, find_fee, lot_rule, market_lot_size};
use crate::func::{Symbol, OrderSide, pair_name, shares_market, side_of, find_order_order, clone_symbol};
use crate::orderbook::{OrderBook, Level, best_levels_wf, best_levels_sound};
use crate::profit::{
    Leg, OrderStruct, OrderView, rules_ok, route_ok, leg_ok, default_start, start_of, quotes,
    calculate_profitablity, create_order, profit_outcome, result_view, orders_upto, orders_view,
    run_finishes, route_finishes,
};

verus! {

/// `0.001`: the least profit, in the stable coin, worth trading for.
pub open spec fn minimum_profit() -> Dec {
    Dec { mantissa: 1, scale: 3 }
}

/// Each market of the triangle shares a coin with the next, the third with
/// the first.
pub open spec fn routes(pairs: Seq<Symbol>) -> bool {
    &&& shares_market(pairs[0]@, pairs[1]@)
    &&& shares_market(pairs[1]@, pairs[2]@)
    &&& shares_market(pairs[2]@, pairs[0]@)
}

/// Whether each market of the triangle shares a coin with the next.
pub fn is_routed(pairs: &[Symbol; 3]) -> (r: bool)
    ensures
        r == routes(pairs@),
{
    shares_coin(&pairs[0], &pairs[1]) && shares_coin(&pairs[1], &pairs[2]) && shares_coin(&pairs[2], &pairs[0])
}

fn shares_coin(a: &Symbol, b: &Symbol) -> (r: bool)
    ensures
        r == shares_market(a@, b@),
{
    b.pair1 == a.pair1 || b.pair1 == a.pair2 || b.pair2 == a.pair1 || b.pair2 == a.pair2
}

/// A market's data holds decimals: the best levels of its book, its lot-size
/// rule, and its fee, if listed.
pub open spec fn market_sound(fees: Seq<TradeFee>, info: ExchangeInformation, s: Symbol, b: OrderBook) -> bool {
    &&& best_levels_wf(b)
    &&& rules_ok(info, pair_name(s@))
    &&& (fee_of(fees, pair_name(s@)) matches Some(f) ==> f.wf())
}

/// The books of the triangle, in the order of its markets.
pub open spec fn books_view(books: (OrderBook, OrderBook, OrderBook)) -> Seq<OrderBook> {
    seq![books.0, books.1, books.2]
}

/// A side of the book is empty.
pub open spec fn side_empty(b: OrderBook) -> bool {
    b.bids@.len() == 0 || b.asks@.len() == 0
}

/// The legs of the triangle: each market, the side taken on it, and its book.
pub open spec fn triangle_legs(pairs: Seq<Symbol>, books: Seq<OrderBook>) -> Seq<Leg> {
    seq![
        (pairs[0], side_of(pairs[0]@, pairs[1]@), books[0]),
        (pairs[1], side_of(pairs[1]@, pairs[2]@), books[1]),
        (pairs[2], side_of(pairs[2]@, pairs[0]@), books[2]),
    ]
}

/// The data of each market of the triangle holds decimals, and, when no side
/// of its books is empty, the triangle routes and pricing it from the default
/// starting amount finishes.
pub open spec fn triangle_sound(
    fees: Seq<TradeFee>,
    info: ExchangeInformation,
    pairs: Seq<Symbol>,
    books: Seq<OrderBook>,
) -> bool {
    &&& pairs.len() == 3
    &&& books.len() == 3
    &&& forall|q: int| 0 <= q < 3 ==> market_sound(fees, info, pairs[q], #[trigger] books[q])
    &&& !(side_empty(books[0]) || side_empty(books[1]) || side_empty(books[2])) ==> {
        &&& routes(pairs)
        &&& run_finishes(fees, info, quotes(triangle_legs(pairs, books)), default_start())
    }
}

/// Whether the lot-size rule of the market named like `symbol` holds
/// decimals.
pub fn rules_sound(exchange_info: &ExchangeInformation, symbol: &Symbol) -> (r: bool)
    ensures
        r == rules_ok(*exchange_info, pair_name(symbol@)),
{
    let rule = market_lot_size(exchange_info, symbol);
    assert(rule == lot_rule(*exchange_info, pair_name(symbol@)));
    match rule {
        Some(Filter::LotSize { min_qty, max_qty, step_size }) => {
            is_wf(min_qty) && is_wf(max_qty) && is_wf(step_size)
        },
        _ => true,
    }
}

/// A book holding only the best level of each side of `book`.
fn best_only(book: &OrderBook) -> (r: OrderBook)
    requires
        !side_empty(*book),
    ensures
        r.bids@.len() == 1 && r.asks@.len() == 1,
        r.bids@[0] == book.bids@[0] && r.asks@[0] == book.asks@[0],
{
    let mut bids: Vec<Level> = Vec::new();
    bids.push(book.bids[0]);
    let mut asks: Vec<Level> = Vec::new();
    asks.push(book.asks[0]);
    OrderBook { last_update_id: book.last_update_id, bids, asks }
}

/// Whether the market's data can be priced.
pub fn market_ready(trading_fees: &Vec<TradeFee>, exchange_info: &ExchangeInformation, symbol: &Symbol, book: &OrderBook) -> (r: bool)
    ensures
        r == market_sound(trading_fees@, *exchange_info, *symbol, *book),
{
    let fee_ok = match find_fee(trading_fees, symbol) {
        Some(f) => is_wf(f),
        None => true,
    };
    best_levels_sound(book) && rules_sound(exchange_info, symbol) && fee_ok
}

/// Whether each market's data holds decimals, and, when no side of the books
/// is empty, the triangle routes and pricing it finishes.
pub fn triangle_ready(
    trading_fees: &Vec<TradeFee>,
    exchange_info: &ExchangeInformation,
    pairs: &[Symbol; 3],
    books: &(OrderBook, OrderBook, OrderBook),
) -> (r: bool)
    ensures
        r == triangle_sound(trading_fees@, *exchange_info, pairs@, books_view(*books)),
{
    let ghost bv = books_view(*books);
    assert(bv[0] == books.0 && bv[1] == books.1 && bv[2] == books.2);
    let sound = market_ready(trading_fees, exchange_info, &pairs[0], &books.0)
        && market_ready(trading_fees, exchange_info, &pairs[1], &books.1)
        && market_ready(trading_fees, exchange_info, &pairs[2], &books.2);
    if !sound {
        return false;
    }
    assert forall|q: int| 0 <= q < 3 implies market_sound(trading_fees@, *exchange_info, pairs@[q], #[trigger] bv[q]) by {
        if q == 0 {
        } else if q == 1 {
        } else {
        }
    }
    let (book0, book1, book2) = (&books.0, &books.1, &books.2);
    if book0.bids.len() == 0 || book0.asks.len() == 0 || book1.bids.len() == 0 || book1.asks.len() == 0
        || book2.bids.len() == 0 || book2.asks.len() == 0 {
        return true;
    }
    if !is_routed(pairs) {
        return false;
    }
    let route = find_order_order(pairs);
    let mut legs: Vec<Leg> = Vec::new();
    legs.push((clone_symbol(&route[0].0), route[0].1, best_only(book0)));
    legs.push((clone_symbol(&route[1].0), route[1].1, best_only(book1)));
    legs.push((clone_symbol(&route[2].0), route[2].1, best_only(book2)));
    let ghost tl = triangle_legs(pairs@, bv);
    assert(quotes(legs@) =~= quotes(tl)) by {
        assert forall|k: int| 0 <= k < 3 implies #[trigger] quotes(legs@)[k] == quotes(tl)[k] by {
            assert(legs@[k].0@ == tl[k].0@);
            assert(legs@[k].1 == tl[k].1);
        }
    }
    assert forall|k: int| 0 <= k < legs@.len() implies leg_ok(trading_fees@, *exchange_info, #[trigger] legs@[k]) by {
        assert(market_sound(trading_fees@, *exchange_info, pairs@[k], bv[k]));
        assert(legs@[k].0@ == pairs@[k]@);
        assert(legs@[k].1 == tl[k].1);
    }
    route_finishes(trading_fees, exchange_info, legs.as_slice(), None)
}

/// The orders that a priced route leads to: none when it could not be priced
/// or its profit is below the minimum; otherwise one per leg, at the leg's
/// book price, for the leg's filtered amount (less the fee after the first
/// leg).
pub open spec fn orders_for(
    fees: Seq<TradeFee>,
    legs: Seq<Leg>,
    priced: Option<(Dec, Dec, Seq<Dec>, Seq<Dec>)>,
) -> Option<Seq<OrderView>> {
    match priced {
        Some((profit, _, qtys, prices)) => if profit.lt_value(minimum_profit()) {
            None
        } else {
            orders_upto(fees, legs, qtys, prices, legs.len() as int)
        },
        None => None,
    }
}

/// The legs of a triangle take its markets and books in order; each leg buys
/// exactly when its market's base coin is the base or the quote of the next
/// market (the first market follows the third), and sells otherwise.
pub proof fn law_triangle_legs(pairs: Seq<Symbol>, books: Seq<OrderBook>)
    requires
        pairs.len() == 3,
        books.len() == 3,
    ensures
        triangle_legs(pairs, books).len() == 3,
        forall|k: int|
            0 <= k < 3 ==> {
                let leg = #[trigger] triangle_legs(pairs, books)[k];
                let next = pairs[(k + 1) % 3];
                &&& leg.0 == pairs[k]
                &&& leg.2 == books[k]
                &&& (leg.1 == OrderSide::Buy) <==> (pairs[k].pair1@ == next.pair1@ || pairs[k].pair1@ == next.pair2@)
            },
{
    assert forall|k: int|
        0 <= k < 3 implies {
            let leg = #[trigger] triangle_legs(pairs, books)[k];
            let next = pairs[(k + 1) % 3];
            &&& leg.0 == pairs[k]
            &&& leg.2 == books[k]
            &&& (leg.1 == OrderSide::Buy) <==> (pairs[k].pair1@ == next.pair1@ || pairs[k].pair1@ == next.pair2@)
        } by {
        if k == 0 {
        } else if k == 1 {
        } else {
        }
    }
}

/// A priced route leads to orders exactly when its profit is at least
/// `0.001`: then they are the orders for its legs, quantities and prices;
/// below that, or when the route could not be priced, there are none.
pub proof fn law_orders_only_at_minimum_profit(
    fees: Seq<TradeFee>,
    legs: Seq<Leg>,
    priced: Option<(Dec, Dec, Seq<Dec>, Seq<Dec>)>,
)
    ensures
        priced is None ==> orders_for(fees, legs, priced) is None,
        priced is Some && priced->Some_0.0.lt_value(Dec { mantissa: 1, scale: 3 }) ==> orders_for(fees, legs, priced) is None,
        priced is Some && !priced->Some_0.0.lt_value(Dec { mantissa: 1, scale: 3 }) ==> orders_for(fees, legs, priced)
            == orders_upto(fees, legs, priced->Some_0.2, priced->Some_0.3, legs.len() as int),
{
}

/// Looks at one triangle with the books of its three markets: when any side
/// of a book is empty, or the route is not profitable by at least
/// [`minimum_profit`] from the default starting amount, there is nothing to
/// do (`None`); otherwise the orders for the three legs. The data must pass
/// [`triangle_ready`].
pub fn evaluate_triangle(
    trading_fees: &Vec<TradeFee>,
    exchange_info: &ExchangeInformation,
    pairs: &[Symbol; 3],
    books: (OrderBook, OrderBook, OrderBook),
) -> (r: Option<Vec<OrderStruct>>)
    requires
        triangle_sound(trading_fees@, *exchange_info, pairs@, books_view(books)),
    ensures
        side_empty(books.0) || side_empty(books.1) || side_empty(books.2) ==> r is None,
        !(side_empty(books.0) || side_empty(books.1) || side_empty(books.2)) ==> exists|p: Option<(Dec, Dec, Seq<Dec>, Seq<Dec>)>|
            #[trigger] profit_outcome(
                trading_fees@,
                *exchange_info,
                quotes(triangle_legs(pairs@, books_view(books))),
                default_start(),
                p,
            ) && match orders_for(trading_fees@, triangle_legs(pairs@, books_view(books)), p) {
                Some(v) => r matches Some(o) && orders_view(o@) == v,
                None => r is None,
            },
{
    let ghost bv = books_view(books);
    assert(bv[0] == books.0 && bv[1] == books.1 && bv[2] == books.2);
    assert(market_sound(trading_fees@, *exchange_info, pairs@[0], bv[0]));
    assert(market_sound(trading_fees@, *exchange_info, pairs@[1], bv[1]));
    assert(market_sound(trading_fees@, *exchange_info, pairs@[2], bv[2]));
    let (book0, book1, book2) = books;
    if book0.bids.len() == 0 || book0.asks.len() == 0 || book1.bids.len() == 0 || book1.asks.len() == 0
        || book2.bids.len() == 0 || book2.asks.len() == 0 {
        return None;
    }
    let route = find_order_order(pairs);
    assert(route@[0].0 == pairs@[0] && route@[0].1 == side_of(pairs@[0]@, pairs@[1]@));
    assert(route@[1].0 == pairs@[1] && route@[1].1 == side_of(pairs@[1]@, pairs@[2]@));
    assert(route@[2].0 == pairs@[2] && route@[2].1 == side_of(pairs@[2]@, pairs@[0]@));
    let mut legs: Vec<Leg> = Vec::new();
    legs.push((clone_symbol(&route[0].0), route[0].1, book0));
    legs.push((clone_symbol(&route[1].0), route[1].1, book1));
    legs.push((clone_symbol(&route[2].0), route[2].1, book2));
    let ghost tl = triangle_legs(pairs@, bv);
    assert(legs@ =~= tl);
    assert forall|k: int| 0 <= k < legs@.len() implies leg_ok(trading_fees@, *exchange_info, #[trigger] legs@[k]) by {
        assert(market_sound(trading_fees@, *exchange_info, pairs@[k], bv[k]));
        assert(legs@[k].0 == pairs@[k] && legs@[k].2 == bv[k]);
        let b = bv[k];
        assert(b.bids@.len() > 0 && b.asks@.len() > 0);
        assert(b.bids@[0].price.wf() && b.asks@[0].price.wf());
    }
    assert(route_ok(trading_fees@, *exchange_info, legs@, start_of(None)));
    let priced = calculate_profitablity(trading_fees, exchange_info, legs.as_slice(), None);
    assert(profit_outcome(trading_fees@, *exchange_info, quotes(tl), default_start(), result_view(priced)));
    match priced {
        Some((profit, _fee_total, qtys, prices)) => {
            if lt(profit, Dec { mantissa: 1, scale: 3 }) {
                return None;
            }
            assert forall|k: int| 0 <= k < legs@.len() implies (fee_of(
                trading_fees@,
                pair_name(#[trigger] legs@[k].0@),
            ) matches Some(f) ==> f.wf()) by {
                assert(market_sound(trading_fees@, *exchange_info, pairs@[k], bv[k]));
                assert(legs@[k].0 == pairs@[k]);
            }
            let orders = create_order(trading_fees, legs.as_slice(), qtys.as_slice(), prices.as_slice());
            orders
        },
        None => None,
    }
}

} // verus!
