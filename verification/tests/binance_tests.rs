use kucoin_arbitrage::decimal::Dec;
use kucoin_arbitrage::filters::{
    adhere_filters, find_fee, get_precision, market_lot_size, round_step_size, symbol_filters,
    ExchangeInformation, ExchangeSymbol, Filter, TradeFee,
};
use kucoin_arbitrage::func::{
    count_distinct, create_valid_pairs_catalog, find_order_order, has_starter_book, is_stable,
    pairs_and_coins, OrderSide, Symbol,
};
use kucoin_arbitrage::orderbook::{Level, OrderBook};
use kucoin_arbitrage::profit::{calculate_profitablity, create_order, route_finishes, Leg};
use kucoin_arbitrage::search::{evaluate_triangle, is_routed, rules_sound, triangle_ready};
use rust_decimal::Decimal;

fn d(s: &str) -> Dec {
    let x = Decimal::from_str_exact(s).unwrap();
    Dec { mantissa: x.mantissa(), scale: x.scale() }
}

fn value(a: Dec) -> Decimal {
    Decimal::from_i128_with_scale(a.mantissa, a.scale)
}

fn same(a: Dec, b: Dec) -> bool {
    value(a) == value(b)
}

fn normalize(a: Dec) -> Dec {
    let n = value(a).normalize();
    Dec { mantissa: n.mantissa(), scale: n.scale() }
}

fn lot(min: &str, max: &str, step: &str) -> Filter {
    Filter::LotSize { min_qty: d(min), max_qty: d(max), step_size: d(step) }
}

fn market(name: &str, filters: Vec<Filter>) -> ExchangeSymbol {
    ExchangeSymbol { symbol: name.to_string(), base_asset_precision: 8, quote_precision: 6, filters }
}

fn exchange_information() -> ExchangeInformation {
    ExchangeInformation {
        symbols: vec![
            market("USDCUSDT", vec![Filter::Other, lot("1.00000000", "9000000.00000000", "1.00000000")]),
            market("ADAUSDC", vec![lot("0.10000000", "9000000.00000000", "0.10000000"), Filter::Other]),
            market("ADAUSDT", vec![lot("0.10000000", "900000.00000000", "0.10000000")]),
        ],
    }
}

fn fee(name: &str, taker: &str) -> TradeFee {
    TradeFee { symbol: name.to_string(), taker_commission: d(taker) }
}

fn trading_fees() -> Vec<TradeFee> {
    vec![fee("USDCUSDT", "0.006"), fee("ADAUSDC", "0.006"), fee("ADAUSDT", "0.006")]
}

fn get_step_size(symbol: &Symbol, exchange_info: &ExchangeInformation) -> Option<Dec> {
    for filter in symbol_filters(symbol, exchange_info).unwrap() {
        if let Filter::LotSize { step_size, .. } = filter {
            return Some(normalize(step_size));
        }
    }
    None
}

fn book(qty: Dec, price: Dec) -> OrderBook {
    OrderBook { last_update_id: 1, bids: vec![Level { price, qty }], asks: vec![Level { price, qty }] }
}

#[test]
fn test_step_size() {
    let info = exchange_information();
    let mut symbol: Symbol;

    symbol = Symbol::new("USDC", "USDT");
    assert!(same(d("1"), get_step_size(&symbol, &info).unwrap()));
    assert!(same(d("50"), round_step_size(d("50.020008003201276"), get_step_size(&symbol, &info).unwrap())));

    symbol = Symbol::new("ADA", "USDC");
    assert!(same(d("0.1"), get_step_size(&symbol, &info).unwrap()));
    assert!(same(d("101.2"), round_step_size(d("101.29791117420402"), get_step_size(&symbol, &info).unwrap())));

    symbol = Symbol::new("ADA", "USDT");
    assert!(same(d("0.1"), get_step_size(&symbol, &info).unwrap()));
    assert!(same(d("101.5"), round_step_size(d("101.50375939849624"), get_step_size(&symbol, &info).unwrap())));
}

#[test]
fn test_calculate_profitablity() {
    let qty = d("50.12345");
    let price = d("1.0");
    let order_data: [Leg; 3] = [
        (Symbol::new("USDC", "USDT"), OrderSide::Sell, book(qty, price)),
        (Symbol::new("ADA", "USDC"), OrderSide::Sell, book(qty, price)),
        (Symbol::new("ADA", "USDT"), OrderSide::Sell, book(qty, price)),
    ];
    let (profit, fees, _, _) =
        calculate_profitablity(&trading_fees(), &exchange_information(), &order_data, None).unwrap();
    assert!(same(d("0.9"), fees)); // (0.006 * 50) * 3
    assert!(same(d("-0.9"), profit));
}

#[test]
fn round_step_size_keeps_places_of_small_steps() {
    assert!(same(d("7.123"), round_step_size(d("7.12399"), d("0.00100000"))));
    assert!(same(d("7"), round_step_size(d("7.9"), d("10"))));
    assert!(same(d("0"), round_step_size(d("0.99"), d("1"))));
    let r = round_step_size(d("3.25"), d("0.05"));
    assert!(same(d("3.25"), r));
}

#[test]
fn amounts_too_long_for_the_step_places_are_kept() {
    let big = d("79228162514264337593543950335");
    assert_eq!(round_step_size(big, d("0.1")), big);
    let info = ExchangeInformation {
        symbols: vec![market("BIGUSDT", vec![lot("0.1", "79228162514264337593543950335", "0.1")])],
    };
    assert_eq!(adhere_filters(&info, &Symbol::new("BIG", "USDT"), big, d("1")), Some(big));
    let long = d("7922816251426433759354395033.5");
    assert_eq!(round_step_size(long, d("0.01")), long);
    // a finer step on a short amount still cuts it
    assert!(same(d("0.12345678901234567890123456"), round_step_size(d("0.123456789012345678901234567"), d("0.00000000000000000000000001"))));
}

#[test]
fn a_negative_maximum_caps_below_zero() {
    let info = ExchangeInformation { symbols: vec![market("ADAUSDT", vec![lot("-100", "-1.55", "0.1")])] };
    // capped at -1.55, then cut toward zero to -1.5
    assert!(same(d("-1.5"), adhere_filters(&info, &Symbol::new("ADA", "USDT"), d("3"), d("1")).unwrap()));
}

#[test]
fn adhere_filters_caps_cuts_and_refuses() {
    let info = exchange_information();
    let ada = Symbol::new("ADA", "USDT");
    // below the minimum
    assert_eq!(adhere_filters(&info, &ada, d("0.05"), d("1")), None);
    // a multiple of the step is returned as it is
    assert!(same(d("12.3"), adhere_filters(&info, &ada, d("12.3"), d("1")).unwrap()));
    // an amount the step divides keeps the places it was written with
    assert_eq!(adhere_filters(&info, &ada, d("12.30000"), d("1")).unwrap().scale, 5);
    // cut to the step
    assert!(same(d("12.3"), adhere_filters(&info, &ada, d("12.345"), d("1")).unwrap()));
    // capped at the maximum
    assert!(same(d("900000"), adhere_filters(&info, &ada, d("1000000"), d("1")).unwrap()));
    // unknown market
    assert_eq!(adhere_filters(&info, &Symbol::new("BTC", "EUR"), d("5"), d("1")), None);
    // a market with no lot-size rule
    let bare = ExchangeInformation { symbols: vec![market("XYZUSDT", vec![Filter::Other])] };
    assert_eq!(adhere_filters(&bare, &Symbol::new("XYZ", "USDT"), d("5"), d("1")), None);
}

#[test]
fn lookups_by_market_name() {
    let info = exchange_information();
    let fees = trading_fees();
    assert!(same(d("0.006"), find_fee(&fees, &Symbol::new("ADA", "USDC")).unwrap()));
    assert_eq!(find_fee(&fees, &Symbol::new("ADA", "EUR")), None);
    assert_eq!(get_precision(&"ADAUSDC".to_string(), &info), Some((8, 6)));
    assert_eq!(get_precision(&"NOPE".to_string(), &info), None);
    assert!(symbol_filters(&Symbol::new("NO", "PE"), &info).is_none());
    assert_eq!(symbol_filters(&Symbol::new("ADA", "USDT"), &info).unwrap().len(), 1);
    match market_lot_size(&info, &Symbol::new("USDC", "USDT")) {
        Some(Filter::LotSize { step_size, .. }) => assert!(same(d("1"), step_size)),
        _ => panic!("expected a lot-size rule"),
    }
    assert!(market_lot_size(&info, &Symbol::new("NO", "PE")).is_none());
}

#[test]
fn precision_is_cut_to_a_byte() {
    let info = ExchangeInformation {
        symbols: vec![ExchangeSymbol {
            symbol: "BIGUSDT".to_string(),
            base_asset_precision: 300,
            quote_precision: 2,
            filters: vec![],
        }],
    };
    assert_eq!(get_precision(&"BIGUSDT".to_string(), &info), Some((44, 2)));
}

#[test]
fn calculate_profitablity_reruns_from_a_thin_level() {
    let price = d("1.0");
    let order_data: [Leg; 3] = [
        (Symbol::new("USDC", "USDT"), OrderSide::Sell, book(d("100"), price)),
        (Symbol::new("ADA", "USDC"), OrderSide::Sell, book(d("20"), price)),
        (Symbol::new("ADA", "USDT"), OrderSide::Sell, book(d("100"), price)),
    ];
    let (profit, fees, qtys, prices) =
        calculate_profitablity(&trading_fees(), &exchange_information(), &order_data, None).unwrap();
    // the route is priced again from the 20 on the second book
    for q in qtys.iter() {
        assert!(same(d("20"), *q));
    }
    for p in prices.iter() {
        assert!(same(d("1.0"), *p));
    }
    assert!(same(d("0.36"), fees));
    assert!(same(d("-0.36"), profit));
}

#[test]
fn calculate_profitablity_needs_every_fee_and_rule() {
    let price = d("1.0");
    let qty = d("100");
    let order_data: [Leg; 3] = [
        (Symbol::new("USDC", "USDT"), OrderSide::Sell, book(qty, price)),
        (Symbol::new("ADA", "USDC"), OrderSide::Sell, book(qty, price)),
        (Symbol::new("ADA", "USDT"), OrderSide::Sell, book(qty, price)),
    ];
    let no_fee = vec![fee("USDCUSDT", "0.006"), fee("ADAUSDC", "0.006")];
    assert_eq!(calculate_profitablity(&no_fee, &exchange_information(), &order_data, None), None);
    let info = ExchangeInformation { symbols: vec![] };
    assert_eq!(calculate_profitablity(&trading_fees(), &info, &order_data, None), None);
    // a starting amount below the first minimum is refused
    assert_eq!(
        calculate_profitablity(&trading_fees(), &exchange_information(), &order_data, Some(d("0.5"))),
        None
    );
}

#[test]
fn create_order_takes_the_fee_off_later_legs() {
    let order_data: [Leg; 3] = [
        (Symbol::new("USDC", "USDT"), OrderSide::Buy, book(d("1"), d("1"))),
        (Symbol::new("ADA", "USDC"), OrderSide::Sell, book(d("1"), d("1"))),
        (Symbol::new("ADA", "USDT"), OrderSide::Sell, book(d("1"), d("1"))),
    ];
    let qtys = [d("50"), d("100"), d("10")];
    let prices = [d("1.01"), d("0.5"), d("2")];
    let orders = create_order(&trading_fees(), &order_data, &qtys, &prices).unwrap();
    assert_eq!(orders.len(), 3);
    assert_eq!(orders[0].symbol, "USDCUSDT");
    assert_eq!(orders[0].side, OrderSide::Buy);
    assert!(same(d("50"), orders[0].amount));
    assert!(same(d("1.01"), orders[0].price));
    assert_eq!(orders[1].symbol, "ADAUSDC");
    assert_eq!(orders[1].side, OrderSide::Sell);
    assert!(same(d("99.4"), orders[1].amount));
    assert!(same(d("0.5"), orders[1].price));
    assert!(same(d("9.94"), orders[2].amount));
    let missing = vec![fee("USDCUSDT", "0.006")];
    assert!(create_order(&missing, &order_data, &qtys, &prices).is_none());
}

#[test]
fn catalog_of_binance_triangles() {
    let symbols = vec![
        Symbol::new("ADA", "USDT"),
        Symbol::new("ADA", "BTC"),
        Symbol::new("BTC", "USDT"),
        Symbol::new("ETH", "EUR"),
    ];
    let catalog = create_valid_pairs_catalog(&symbols);
    let names: Vec<Vec<String>> = catalog.iter().map(|t| t.iter().map(|s| s.pair()).collect()).collect();
    assert_eq!(
        names,
        vec![
            vec!["ADAUSDT".to_string(), "ADABTC".to_string(), "BTCUSDT".to_string()],
            vec!["BTCUSDT".to_string(), "ADABTC".to_string(), "ADAUSDT".to_string()],
        ]
    );
    assert!(create_valid_pairs_catalog(&[]).is_empty());
}

#[test]
fn sides_of_a_binance_triangle() {
    let pairs = [Symbol::new("ADA", "USDT"), Symbol::new("ADA", "BTC"), Symbol::new("BTC", "USDT")];
    let route = find_order_order(&pairs);
    assert_eq!(route[0].0.pair(), "ADAUSDT");
    assert_eq!(route[0].1, OrderSide::Buy);
    assert_eq!(route[1].1, OrderSide::Sell);
    assert_eq!(route[2].0.pair(), "BTCUSDT");
    assert_eq!(route[2].1, OrderSide::Sell);
    assert!(is_routed(&pairs));
    assert!(!is_routed(&[Symbol::new("ADA", "USDT"), Symbol::new("ETH", "BTC"), Symbol::new("BTC", "USDT")]));
}

#[test]
fn symbols_and_coins() {
    let s = Symbol::new("ETH", "USDT");
    assert_eq!(s.pair(), "ETHUSDT");
    assert_eq!(s.symbols(), (&"ETH".to_string(), &"USDT".to_string()));
    assert!(is_stable(&s));
    assert!(!is_stable(&Symbol::new("ETH", "BTC")));
    let parts = ["A".to_string(), "B".to_string(), "B".to_string(), "C".to_string(), "C".to_string(), "A".to_string()];
    assert_eq!(count_distinct(&parts), 3);
    assert!(has_starter_book(&Symbol::new("ETH", "USDT")));
    assert!(!has_starter_book(&Symbol::new("1INCH", "USDT4")));
}

#[test]
fn pairs_and_coins_skip_the_dollar_and_sort_coins() {
    let markets = vec![
        ("USD".to_string(), "USD".to_string()),
        ("ETH".to_string(), "USDT".to_string()),
        ("BTC".to_string(), "USD".to_string()),
        ("ETH".to_string(), "BTC".to_string()),
    ];
    let (pairs, coins) = pairs_and_coins(&markets);
    let names: Vec<String> = pairs.iter().map(|s| s.pair()).collect();
    assert_eq!(names, vec!["ETHUSDT", "BTCUSD", "ETHBTC"]);
    assert_eq!(coins, vec!["BTC", "ETH", "USD", "USDT"]);
}

fn triangle_books(first: &str, second: &str, third: &str) -> (OrderBook, OrderBook, OrderBook) {
    let q = d("1000");
    (book(q, d(first)), book(q, d(second)), book(q, d(third)))
}

#[test]
fn evaluate_triangle_skips_empty_books_and_small_profits() {
    let info = exchange_information();
    let fees = trading_fees();
    let pairs = [Symbol::new("USDC", "USDT"), Symbol::new("ADA", "USDC"), Symbol::new("ADA", "USDT")];
    let books = triangle_books("1", "1", "1");
    assert!(triangle_ready(&fees, &info, &pairs, &books));
    assert!(evaluate_triangle(&fees, &info, &pairs, books).is_none());
    let mut empty = triangle_books("1", "1", "1");
    empty.1.asks.clear();
    assert!(evaluate_triangle(&fees, &info, &pairs, empty).is_none());
}

#[test]
fn evaluate_triangle_orders_a_profitable_route() {
    let info = exchange_information();
    let fees = vec![fee("USDCUSDT", "0"), fee("ADAUSDC", "0"), fee("ADAUSDT", "0")];
    let pairs = [Symbol::new("USDC", "USDT"), Symbol::new("ADA", "USDC"), Symbol::new("ADA", "USDT")];
    // Every leg is sold at its best bid: 50 units go through unchanged.
    let (b0, b1, b2) = triangle_books("1", "1", "1");
    let mut third = b2;
    third.bids[0].qty = d("1000");
    let orders = evaluate_triangle(&fees, &info, &pairs, (b0, b1, third));
    // profit is 50 - 0 - 50 = 0: below the minimum
    assert!(orders.is_none());

    let cheap = ExchangeInformation {
        symbols: vec![
            market("USDCUSDT", vec![lot("1", "9000000", "1")]),
            market("ADAUSDC", vec![lot("1", "9000000", "1")]),
            market("ADAUSDT", vec![lot("1", "9000000", "1")]),
        ],
    };
    let negative_fees = vec![fee("USDCUSDT", "-0.01"), fee("ADAUSDC", "0"), fee("ADAUSDT", "0")];
    let books = triangle_books("1.5", "2", "3");
    assert!(triangle_ready(&negative_fees, &cheap, &pairs, &books));
    let orders = evaluate_triangle(&negative_fees, &cheap, &pairs, books).unwrap();
    assert_eq!(orders.len(), 3);
    assert_eq!(orders[0].symbol, "USDCUSDT");
    // each order goes out at the leg's book price for the leg's amount
    assert!(same(d("1.5"), orders[0].price));
    assert!(same(d("50"), orders[0].amount));
    assert!(same(d("2"), orders[1].price));
    assert!(same(d("50"), orders[1].amount));
    assert!(same(d("3"), orders[2].price));
    assert!(same(d("50"), orders[2].amount));
}

#[test]
fn readiness_checks() {
    let info = exchange_information();
    let fees = trading_fees();
    assert!(rules_sound(&info, &Symbol::new("ADA", "USDT")));
    let zero_step = ExchangeInformation { symbols: vec![market("ADAUSDT", vec![lot("1", "10", "0")])] };
    assert!(rules_sound(&zero_step, &Symbol::new("ADA", "USDT")));
    let fine_step = ExchangeInformation {
        symbols: vec![market("ADAUSDT", vec![lot("1", "10", "0.0000000000000000000000000001")])],
    };
    assert!(rules_sound(&fine_step, &Symbol::new("ADA", "USDT")));
    let negative_max = ExchangeInformation { symbols: vec![market("ADAUSDT", vec![lot("1", "-10", "0.1")])] };
    assert!(rules_sound(&negative_max, &Symbol::new("ADA", "USDT")));
    let pairs = [Symbol::new("USDC", "USDT"), Symbol::new("ADA", "USDC"), Symbol::new("ADA", "USDT")];
    // a negative best quantity reruns from it, and the minimum refuses it
    let mut books = triangle_books("1", "1", "1");
    books.2.bids[0].qty = d("-1");
    assert!(triangle_ready(&fees, &info, &pairs, &books));
    assert!(evaluate_triangle(&fees, &info, &pairs, books).is_none());
    // a step of zero reached at or above the minimum cannot be priced
    let stuck = ExchangeInformation {
        symbols: vec![
            market("USDCUSDT", vec![lot("1", "9000000", "1")]),
            market("ADAUSDC", vec![lot("0.1", "9000000", "0")]),
            market("ADAUSDT", vec![lot("0.1", "900000", "0.1")]),
        ],
    };
    assert!(!triangle_ready(&fees, &stuck, &pairs, &triangle_books("1", "1", "1")));
    // below the minimum a zero step is never used
    let unused = ExchangeInformation {
        symbols: vec![
            market("USDCUSDT", vec![lot("1", "9000000", "1")]),
            market("ADAUSDC", vec![lot("100", "9000000", "0")]),
            market("ADAUSDT", vec![lot("0.1", "900000", "0.1")]),
        ],
    };
    let books = triangle_books("1", "1", "1");
    assert!(triangle_ready(&fees, &unused, &pairs, &books));
    assert!(evaluate_triangle(&fees, &unused, &pairs, books).is_none());
    assert_eq!(adhere_filters(&unused, &Symbol::new("ADA", "USDC"), d("5"), d("1")), None);
}

#[test]
fn negative_best_quantities() {
    let price = d("1");
    // the rerun from -1 is below the minimum of 0.1: nothing to trade
    let order_data: [Leg; 3] = [
        (Symbol::new("USDC", "USDT"), OrderSide::Sell, book(d("100"), price)),
        (Symbol::new("ADA", "USDC"), OrderSide::Sell, book(d("-1"), price)),
        (Symbol::new("ADA", "USDT"), OrderSide::Sell, book(d("100"), price)),
    ];
    assert!(route_finishes(&trading_fees(), &exchange_information(), &order_data, None));
    assert_eq!(calculate_profitablity(&trading_fees(), &exchange_information(), &order_data, None), None);
    // with a negative minimum the reruns go 50, 5, -0.05, -0.05, ... without end
    let info = ExchangeInformation {
        symbols: vec![
            market("USDCUSDT", vec![lot("-1", "9000000", "0.1")]),
            market("ADAUSDC", vec![lot("0", "9000000", "0.1")]),
        ],
    };
    let endless: [Leg; 2] = [
        (Symbol::new("USDC", "USDT"), OrderSide::Sell, book(d("5"), price)),
        (Symbol::new("ADA", "USDC"), OrderSide::Sell, book(d("-0.05"), price)),
    ];
    assert!(!route_finishes(&trading_fees(), &info, &endless, None));
    // from 5 itself the second leg still reruns from -0.05
    assert!(!route_finishes(&trading_fees(), &info, &endless, Some(d("5"))));
    // a single leg with a negative quantity that the step divides: 50 reruns
    // from -0.1, which goes through
    let single: [Leg; 1] = [(Symbol::new("USDC", "USDT"), OrderSide::Sell, book(d("-0.1"), price))];
    assert!(route_finishes(&trading_fees(), &info, &single, None));
    let (profit, fees, qtys, prices) = calculate_profitablity(&trading_fees(), &info, &single, None).unwrap();
    assert!(same(d("-0.1"), qtys[0]));
    assert!(same(d("1"), prices[0]));
    assert!(same(d("-0.0006"), fees));
    assert!(same(d("0.0006"), profit));
}

#[test]
fn power_of_ten_steps_truncate() {
    for (amount, step, cut) in [("7.12399", "0.01", "7.12"), ("-3.987", "0.1", "-3.9"), ("12.5", "0.001", "12.5")] {
        let r = round_step_size(d(amount), d(step));
        assert!(same(d(cut), r));
        assert_eq!(value(r) % value(d(step)), Decimal::ZERO);
    }
}

#[test]
fn pricing_a_route_twice_gives_one_outcome() {
    let price = d("1.0");
    let order_data: [Leg; 3] = [
        (Symbol::new("USDC", "USDT"), OrderSide::Sell, book(d("100"), price)),
        (Symbol::new("ADA", "USDC"), OrderSide::Sell, book(d("20"), price)),
        (Symbol::new("ADA", "USDT"), OrderSide::Sell, book(d("7"), price)),
    ];
    let first = calculate_profitablity(&trading_fees(), &exchange_information(), &order_data, None);
    let second = calculate_profitablity(&trading_fees(), &exchange_information(), &order_data, None);
    assert_eq!(first, second);
    let (_, _, qtys, _) = first.unwrap();
    assert!(same(d("7"), qtys[0]));
}

#[test]
fn cutting_twice_is_cutting_once() {
    for (amount, step) in [("7.12399", "0.001"), ("101.29791117420402", "0.1"), ("7.9", "10"), ("3.25", "0.05")] {
        let once = round_step_size(d(amount), d(step));
        let twice = round_step_size(once, d(step));
        assert!(same(once, twice));
        // at most the amount, less than a step below it
        assert!(value(once) <= value(d(amount)));
        assert!(value(d(amount)) - value(once) < value(d(step)));
    }
}
