//! The profit of running a starting amount through the three legs of a
//! triangle at the best level of each book, with the exchange's lot-size rules
//! and fees; and the orders that carry a profitable route out.
use vstd::prelude::*;
use crate::decimal::{
    Dec, checked_add, checked_mul, checked_sub, decimal_checked_add, decimal_checked_mul,
    decimal_checked_sub, lt, nonneg, pow10, lemma_pow10_positive, lemma_le_trans,
    lemma_lt_le_trans,
};
use crate::filters::{
    ExchangeInformation, TradeFee, Filter, adhere_filters, adhere_result, find_fee, fee_of,
    market_filters, first_lot_size, filters_apply, lot_rule, market_lot_size, zero,
};
use crate::func::{Symbol, OrderSide, pair_name};
use crate::orderbook::{Level, OrderBook};

verus! {

/// A leg of a route: the market, the side taken on it, and its book.
pub type Leg = (Symbol, OrderSide, OrderBook);

/// The best level a leg trades at: the lowest ask when buying, the highest
/// bid when selling (the first level of the sorted side).
pub open spec fn quote_of(leg: Leg) -> Level {
    match leg.1 {
        OrderSide::Buy => leg.2.asks@[0],
        OrderSide::Sell => leg.2.bids@[0],
    }
}

/// The side of the book that the leg trades on is not empty.
pub open spec fn has_quote(leg: Leg) -> bool {
    match leg.1 {
        OrderSide::Buy => leg.2.asks@.len() > 0,
        OrderSide::Sell => leg.2.bids@.len() > 0,
    }
}


/// A leg as pricing reads it: the name of its market and its best level.
pub type Quote = (Seq<char>, Level);

/// The quotes of the legs, in order.
pub open spec fn quotes(legs: Seq<Leg>) -> Seq<Quote> {
    Seq::new(legs.len(), |k: int| (pair_name(legs[k].0@), quote_of(legs[k])))
}

/// How one pass of the route over the legs ends.
pub enum Pass {
    /// Every leg went through: the final amount, the fees, and the amount and
    /// price of each leg.
    Done(Dec, Dec, Seq<Dec>, Seq<Dec>),
    /// A market, rule or fee was missing, or a sum overflowed.
    Fail,
    /// A leg's lot-size rule has a step of zero and the amount reaches its
    /// minimum: the remainder by that step has no value.
    Stuck,
    /// The best level of some leg holds less than the amount: run again from
    /// that quantity.
    Rerun(Dec),
}

/// The lot-size rule of the market has a step of zero and `amount` is not
/// below its minimum.
pub open spec fn zero_step_reached(info: ExchangeInformation, name: Seq<char>, amount: Dec) -> bool {
    match lot_rule(info, name) {
        Some(Filter::LotSize { min_qty, max_qty: _, step_size }) => !amount.lt_value(min_qty)
            && step_size.mantissa == 0,
        _ => false,
    }
}

/// The pass over legs `i..` with the amount `coin` carried into leg `i`.
pub open spec fn pass_from(
    fees: Seq<TradeFee>,
    info: ExchangeInformation,
    qs: Seq<Quote>,
    i: int,
    coin: Dec,
    fee_total: Dec,
    qtys: Seq<Dec>,
    prices: Seq<Dec>,
) -> Pass
    decreases qs.len() - i,
{
    if i < 0 || i >= qs.len() {
        Pass::Done(coin, fee_total, qtys, prices)
    } else {
        let name = qs[i].0;
        let level = qs[i].1;
        if zero_step_reached(info, name, coin) {
            Pass::Stuck
        } else {
            match adhere_result(info, name, coin) {
                None => Pass::Fail,
                Some(amount) => if level.qty.lt_value(amount) {
                    Pass::Rerun(level.qty)
                } else {
                    match fee_of(fees, name) {
                        None => Pass::Fail,
                        Some(f) => match decimal_checked_mul(amount, f) {
                            None => Pass::Fail,
                            Some(c) => match decimal_checked_add(fee_total, c) {
                                None => Pass::Fail,
                                Some(total) => pass_from(
                                    fees,
                                    info,
                                    qs,
                                    i + 1,
                                    amount,
                                    total,
                                    qtys.update(i, amount),
                                    prices.update(i, level.price),
                                ),
                            },
                        },
                    }
                },
            }
        }
    }
}

/// `0.0`, the decimal the fee total and the leg amounts start from.
pub open spec fn zero_point_zero() -> Dec {
    Dec { mantissa: 0, scale: 1 }
}

/// `50.0`, the starting amount when none is given.
pub open spec fn default_start() -> Dec {
    Dec { mantissa: 500, scale: 1 }
}

pub open spec fn start_of(starting_amount: Option<Dec>) -> Dec {
    match starting_amount {
        Some(a) => a,
        None => default_start(),
    }
}

/// A pass over all legs from the starting amount.
pub open spec fn first_pass(fees: Seq<TradeFee>, info: ExchangeInformation, qs: Seq<Quote>, start: Dec) -> Pass {
    let z = zero_point_zero();
    pass_from(fees, info, qs, 0, start, z, seq![z, z, z], seq![z, z, z])
}

/// The result of a pass that went through: the profit (final amount minus
/// fees minus the start), the fees, the amounts and the prices.
pub open spec fn settle(p: Pass, start: Dec) -> Option<(Dec, Dec, Seq<Dec>, Seq<Dec>)> {
    match p {
        Pass::Done(coin, fee_total, qtys, prices) => match decimal_checked_sub(coin, fee_total) {
            None => None,
            Some(c) => match decimal_checked_sub(c, start) {
                None => None,
                Some(profit) => Some((profit, fee_total, qtys, prices)),
            },
        },
        _ => None,
    }
}

/// Starting from `a`, `n` passes end in reruns, the last one from `b`.
pub open spec fn reruns(
    fees: Seq<TradeFee>,
    info: ExchangeInformation,
    qs: Seq<Quote>,
    a: Dec,
    b: Dec,
    n: nat,
) -> bool
    decreases n,
{
    if n == 0 {
        a == b
    } else {
        match first_pass(fees, info, qs, a) {
            Pass::Rerun(x) => reruns(fees, info, qs, x, b, (n - 1) as nat),
            _ => false,
        }
    }
}

/// The passes from `start` come, after finitely many reruns, to one that
/// goes through or fails; they neither rerun without end nor reach a step
/// of zero.
pub open spec fn run_finishes(fees: Seq<TradeFee>, info: ExchangeInformation, qs: Seq<Quote>, start: Dec) -> bool {
    exists|n: nat, b: Dec|
        #[trigger] reruns(fees, info, qs, start, b, n) && (first_pass(fees, info, qs, b) is Done
            || first_pass(fees, info, qs, b) is Fail)
}

pub open spec fn result_view(r: Option<(Dec, Dec, [Dec; 3], [Dec; 3])>) -> Option<(Dec, Dec, Seq<Dec>, Seq<Dec>)> {
    match r {
        Some(t) => Some((t.0, t.1, t.2@, t.3@)),
        None => None,
    }
}

/// The outcome of the profit computation: passes are rerun from smaller
/// quantities until one does not rerun, and that one is settled.
pub open spec fn profit_outcome(
    fees: Seq<TradeFee>,
    info: ExchangeInformation,
    qs: Seq<Quote>,
    start: Dec,
    r: Option<(Dec, Dec, Seq<Dec>, Seq<Dec>)>,
) -> bool {
    exists|n: nat, b: Dec|
        #[trigger] reruns(fees, info, qs, start, b, n) && !(first_pass(fees, info, qs, b) is Rerun)
            && r == settle(first_pass(fees, info, qs, b), b)
}

/// The deciding lot-size rule of the market, if any, holds decimals.
pub open spec fn rules_ok(info: ExchangeInformation, name: Seq<char>) -> bool {
    match market_filters(info, name) {
        Some(f) => match first_lot_size(f) {
            Some(j) => match f[j] {
                Filter::LotSize { min_qty, max_qty, step_size } => {
                    &&& min_qty.wf()
                    &&& max_qty.wf()
                    &&& step_size.wf()
                },
                Filter::Other => true,
            },
            None => true,
        },
        None => true,
    }
}

/// The route can be priced from `start`: at most three legs, each with a
/// non-empty quoted side whose best level holds decimals, a lot-size rule
/// of decimals, and a decimal fee; `start` is a decimal.
pub open spec fn route_ok(fees: Seq<TradeFee>, info: ExchangeInformation, legs: Seq<Leg>, start: Dec) -> bool {
    &&& legs.len() <= 3
    &&& start.wf()
    &&& forall|k: int| 0 <= k < legs.len() ==> leg_ok(fees, info, #[trigger] legs[k])
}

pub open spec fn leg_ok(fees: Seq<TradeFee>, info: ExchangeInformation, leg: Leg) -> bool {
    &&& has_quote(leg)
    &&& quote_of(leg).qty.wf()
    &&& quote_of(leg).price.wf()
    &&& rules_ok(info, pair_name(leg.0@))
    &&& (fee_of(fees, pair_name(leg.0@)) matches Some(f) ==> f.wf())
}

/// Every number of `s` is a decimal.
pub open spec fn all_wf(s: Seq<Dec>) -> bool {
    forall|k: int| 0 <= k < s.len() ==> (#[trigger] s[k]).wf()
}

/// The lot-size rule of the market, if any, has a step that is not zero.
pub open spec fn step_not_zero(info: ExchangeInformation, name: Seq<char>) -> bool {
    match lot_rule(info, name) {
        Some(Filter::LotSize { min_qty: _, max_qty: _, step_size }) => step_size.mantissa != 0,
        _ => true,
    }
}

/// Every leg's best quantity is not negative, and its market's lot-size
/// rule, if any, has a step that is not zero.
pub open spec fn plain_route(info: ExchangeInformation, legs: Seq<Leg>) -> bool {
    forall|k: int|
        0 <= k < legs.len() ==> nonneg(quote_of(#[trigger] legs[k]).qty) && step_not_zero(
            info,
            pair_name(legs[k].0@),
        )
}

/// `x` is at most `a`, or at most zero.
spec fn at_most_or_nonpositive(x: Dec, a: Dec) -> bool {
    !a.lt_value(x) || !zero().lt_value(x)
}

proof fn lemma_at_most_chain(x: Dec, coin: Dec, start: Dec)
    requires
        at_most_or_nonpositive(x, coin),
        at_most_or_nonpositive(coin, start),
    ensures
        at_most_or_nonpositive(x, start),
{
    if !coin.lt_value(x) {
        if !start.lt_value(coin) {
            lemma_le_trans(x, coin, start);
        } else {
            lemma_le_trans(x, coin, zero());
        }
    }
}

/// A quantity that is not negative and below an amount that is at most the
/// start (or at most zero) is below the start.
proof fn lemma_rerun_below_start(q: Dec, x: Dec, start: Dec)
    requires
        nonneg(q),
        q.lt_value(x),
        at_most_or_nonpositive(x, start),
    ensures
        q.lt_value(start),
{
    if !start.lt_value(x) {
        lemma_lt_le_trans(q, x, start);
    } else {
        lemma_lt_le_trans(q, x, zero());
        lemma_pow10_positive(q.s());
        assert(pow10(0) == 1);
        assert(q.m() * pow10(0) == q.m());
        assert(0 * pow10(q.s()) == 0);
    }
}

proof fn lemma_rules_ok_applies(info: ExchangeInformation, name: Seq<char>, x: Dec)
    requires
        rules_ok(info, name),
        x.wf(),
        !zero_step_reached(info, name, x),
    ensures
        filters_apply(info, name, x),
{
}

/// One more pass that reruns extends a chain of reruns.
proof fn lemma_reruns_extend(
    fees: Seq<TradeFee>,
    info: ExchangeInformation,
    qs: Seq<Quote>,
    a: Dec,
    c: Dec,
    m: nat,
    x: Dec,
)
    requires
        reruns(fees, info, qs, a, c, m),
        first_pass(fees, info, qs, c) == Pass::Rerun(x),
    ensures
        reruns(fees, info, qs, a, x, m + 1),
    decreases m,
{
    if m > 0 {
        let y = first_pass(fees, info, qs, a)->Rerun_0;
        lemma_reruns_extend(fees, info, qs, y, c, (m - 1) as nat, x);
        assert(reruns(fees, info, qs, y, x, m));
    } else {
        assert(reruns(fees, info, qs, x, x, 0));
    }
}

/// On a cycle of reruns (each amount of `chain` reruns from the next, the
/// last from `chain[j]`), every amount reached reruns again.
proof fn lemma_cycle_keeps_rerunning(
    fees: Seq<TradeFee>,
    info: ExchangeInformation,
    qs: Seq<Quote>,
    chain: Seq<Dec>,
    j: int,
    a: int,
    b: Dec,
    n: nat,
)
    requires
        0 <= j < chain.len(),
        0 <= a < chain.len(),
        forall|k: int| 0 <= k < chain.len() - 1 ==> first_pass(fees, info, qs, #[trigger] chain[k]) == Pass::Rerun(chain[k + 1]),
        first_pass(fees, info, qs, chain.last()) == Pass::Rerun(chain[j]),
        reruns(fees, info, qs, chain[a], b, n),
    ensures
        first_pass(fees, info, qs, b) is Rerun,
    decreases n,
{
    if n > 0 {
        if a < chain.len() - 1 {
            assert(first_pass(fees, info, qs, chain[a]) == Pass::Rerun(chain[a + 1]));
            lemma_cycle_keeps_rerunning(fees, info, qs, chain, j, a + 1, b, (n - 1) as nat);
        } else {
            lemma_cycle_keeps_rerunning(fees, info, qs, chain, j, j, b, (n - 1) as nat);
        }
    } else if a < chain.len() - 1 {
        assert(first_pass(fees, info, qs, chain[a]) == Pass::Rerun(chain[a + 1]));
    }
}

proof fn lemma_reruns_end_unique(
    fees: Seq<TradeFee>,
    info: ExchangeInformation,
    qs: Seq<Quote>,
    a: Dec,
    b1: Dec,
    n1: nat,
    b2: Dec,
    n2: nat,
)
    requires
        reruns(fees, info, qs, a, b1, n1),
        reruns(fees, info, qs, a, b2, n2),
        !(first_pass(fees, info, qs, b1) is Rerun),
        !(first_pass(fees, info, qs, b2) is Rerun),
    ensures
        b1 == b2,
    decreases n1,
{
    if n1 > 0 && n2 > 0 {
        let x = first_pass(fees, info, qs, a)->Rerun_0;
        lemma_reruns_end_unique(fees, info, qs, x, b1, (n1 - 1) as nat, b2, (n2 - 1) as nat);
    }
}

/// Pricing a route has exactly one outcome: the reruns from a starting
/// amount lead to one amount from which the route does not rerun.
pub proof fn law_profit_outcome_unique(
    fees: Seq<TradeFee>,
    info: ExchangeInformation,
    qs: Seq<Quote>,
    start: Dec,
    r1: Option<(Dec, Dec, Seq<Dec>, Seq<Dec>)>,
    r2: Option<(Dec, Dec, Seq<Dec>, Seq<Dec>)>,
)
    requires
        profit_outcome(fees, info, qs, start, r1),
        profit_outcome(fees, info, qs, start, r2),
    ensures
        r1 == r2,
{
    let (n1, b1) = choose|n: nat, b: Dec|
        #[trigger] reruns(fees, info, qs, start, b, n) && !(first_pass(fees, info, qs, b) is Rerun)
            && r1 == settle(first_pass(fees, info, qs, b), b);
    let (n2, b2) = choose|n: nat, b: Dec|
        #[trigger] reruns(fees, info, qs, start, b, n) && !(first_pass(fees, info, qs, b) is Rerun)
            && r2 == settle(first_pass(fees, info, qs, b), b);
    lemma_reruns_end_unique(fees, info, qs, start, b1, n1, b2, n2);
}

/// The legs from `i` on of a pass that goes through trade at their quotes:
/// each such leg's price is its quote's price and its amount is at most the
/// quote's quantity; the legs before `i` keep what they had.
proof fn lemma_done_at_quotes(
    fees: Seq<TradeFee>,
    info: ExchangeInformation,
    qs: Seq<Quote>,
    i: int,
    coin: Dec,
    fee_total: Dec,
    qtys: Seq<Dec>,
    prices: Seq<Dec>,
    c: Dec,
    f: Dec,
    q: Seq<Dec>,
    p: Seq<Dec>,
)
    requires
        0 <= i <= qs.len(),
        qs.len() <= qtys.len(),
        qs.len() <= prices.len(),
        pass_from(fees, info, qs, i, coin, fee_total, qtys, prices) == Pass::Done(c, f, q, p),
    ensures
        q.len() == qtys.len(),
        p.len() == prices.len(),
        forall|k: int| 0 <= k < i ==> q[k] == qtys[k] && p[k] == prices[k],
        forall|k: int| i <= k < qs.len() ==> p[k] == (#[trigger] qs[k]).1.price && !qs[k].1.qty.lt_value(q[k]),
    decreases qs.len() - i,
{
    if i < qs.len() {
        let name = qs[i].0;
        let level = qs[i].1;
        let amount = adhere_result(info, name, coin)->Some_0;
        let fv = fee_of(fees, name)->Some_0;
        let cost = decimal_checked_mul(amount, fv)->Some_0;
        let total = decimal_checked_add(fee_total, cost)->Some_0;
        lemma_done_at_quotes(
            fees,
            info,
            qs,
            i + 1,
            amount,
            total,
            qtys.update(i, amount),
            prices.update(i, level.price),
            c,
            f,
            q,
            p,
        );
        assert(q[i] == amount && p[i] == level.price);
    }
}

/// A priced route trades each leg at the first level of its book on the side
/// it takes: a buying leg at the lowest ask (`asks[0]`), a selling leg at the
/// highest bid (`bids[0]`). The leg's price is that level's price, and the
/// amount it trades is at most that level's quantity (a larger amount would
/// have rerun the route).
pub proof fn law_priced_at_best_levels(
    fees: Seq<TradeFee>,
    info: ExchangeInformation,
    legs: Seq<Leg>,
    start: Dec,
    r: Option<(Dec, Dec, Seq<Dec>, Seq<Dec>)>,
)
    requires
        legs.len() <= 3,
        profit_outcome(fees, info, quotes(legs), start, r),
        r is Some,
    ensures
        forall|k: int|
            0 <= k < legs.len() ==> {
                let level = match (#[trigger] legs[k]).1 {
                    OrderSide::Buy => legs[k].2.asks@[0],
                    OrderSide::Sell => legs[k].2.bids@[0],
                };
                &&& r->Some_0.3[k] == level.price
                &&& !level.qty.lt_value(r->Some_0.2[k])
            },
{
    let qs = quotes(legs);
    let (n, b) = choose|n: nat, b: Dec|
        #[trigger] reruns(fees, info, qs, start, b, n) && !(first_pass(fees, info, qs, b) is Rerun)
            && r == settle(first_pass(fees, info, qs, b), b);
    let z = zero_point_zero();
    let pass = first_pass(fees, info, qs, b);
    assert(pass is Done);
    let (c, f, q, p) = (pass->Done_0, pass->Done_1, pass->Done_2, pass->Done_3);
    lemma_done_at_quotes(fees, info, qs, 0, b, z, seq![z, z, z], seq![z, z, z], c, f, q, p);
    assert forall|k: int| 0 <= k < legs.len() implies {
        let level = match (#[trigger] legs[k]).1 {
            OrderSide::Buy => legs[k].2.asks@[0],
            OrderSide::Sell => legs[k].2.bids@[0],
        };
        &&& r->Some_0.3[k] == level.price
        &&& !level.qty.lt_value(r->Some_0.2[k])
    } by {
        assert(qs[k] == (pair_name(legs[k].0@), quote_of(legs[k])));
    }
}

/// The fees of legs `0..n`: starting from `0.0`, the taker fee of each leg's
/// market times the leg's amount, added in leg order; `None` when a fee is
/// missing or a product or sum overflows.
pub open spec fn fees_paid(fees: Seq<TradeFee>, names: Seq<Seq<char>>, amounts: Seq<Dec>, n: int) -> Option<Dec>
    decreases n,
{
    if n <= 0 {
        Some(Dec { mantissa: 0, scale: 1 })
    } else {
        match fees_paid(fees, names, amounts, n - 1) {
            None => None,
            Some(t) => match fee_of(fees, names[n - 1]) {
                None => None,
                Some(f) => match decimal_checked_mul(amounts[n - 1], f) {
                    None => None,
                    Some(c) => decimal_checked_add(t, c),
                },
            },
        }
    }
}

/// The names of the legs' markets.
pub open spec fn leg_names(legs: Seq<Leg>) -> Seq<Seq<char>> {
    Seq::new(legs.len(), |k: int| legs[k].0.pair1@ + legs[k].0.pair2@)
}

proof fn lemma_done_chain(
    fees: Seq<TradeFee>,
    info: ExchangeInformation,
    qs: Seq<Quote>,
    names: Seq<Seq<char>>,
    i: int,
    coin: Dec,
    fee_total: Dec,
    qtys: Seq<Dec>,
    prices: Seq<Dec>,
    c: Dec,
    f: Dec,
    q: Seq<Dec>,
    p: Seq<Dec>,
)
    requires
        0 <= i <= qs.len(),
        qs.len() <= qtys.len(),
        qs.len() <= prices.len(),
        names.len() == qs.len(),
        forall|k: int| 0 <= k < qs.len() ==> (#[trigger] qs[k]).0 == names[k],
        fees_paid(fees, names, qtys, i) == Some(fee_total),
        pass_from(fees, info, qs, i, coin, fee_total, qtys, prices) == Pass::Done(c, f, q, p),
    ensures
        i < qs.len() ==> adhere_result(info, names[i], coin) == Some(q[i]),
        forall|k: int| i < k < qs.len() ==> adhere_result(info, names[k], q[k - 1]) == Some(#[trigger] q[k]),
        c == if i < qs.len() { q[qs.len() - 1] } else { coin },
        fees_paid(fees, names, q, qs.len() as int) == Some(f),
        forall|k: int| 0 <= k < i ==> q[k] == qtys[k],
    decreases qs.len() - i,
{
    lemma_done_at_quotes(fees, info, qs, i, coin, fee_total, qtys, prices, c, f, q, p);
    if i < qs.len() {
        let name = qs[i].0;
        let level = qs[i].1;
        let amount = adhere_result(info, name, coin)->Some_0;
        let fv = fee_of(fees, name)->Some_0;
        let cost = decimal_checked_mul(amount, fv)->Some_0;
        let total = decimal_checked_add(fee_total, cost)->Some_0;
        let qtys2 = qtys.update(i, amount);
        lemma_fees_paid_prefix(fees, names, qtys, qtys2, i);
        assert(fees_paid(fees, names, qtys2, i + 1) == Some(total));
        lemma_done_chain(fees, info, qs, names, i + 1, amount, total, qtys2, prices.update(i, level.price), c, f, q, p);
        lemma_done_at_quotes(fees, info, qs, i + 1, amount, total, qtys2, prices.update(i, level.price), c, f, q, p);
        assert(q[i] == amount);
    } else {
        assert(q == qtys);
        lemma_fees_paid_prefix(fees, names, qtys, q, i);
    }
}

/// The fees of the first `n` legs read only the first `n` amounts.
proof fn lemma_fees_paid_prefix(fees: Seq<TradeFee>, names: Seq<Seq<char>>, a: Seq<Dec>, b: Seq<Dec>, n: int)
    requires
        forall|k: int| 0 <= k < n ==> a[k] == b[k],
    ensures
        fees_paid(fees, names, a, n) == fees_paid(fees, names, b, n),
    decreases n,
{
    if n > 0 {
        lemma_fees_paid_prefix(fees, names, a, b, n - 1);
    }
}

/// A priced route, by the amounts it trades: the last pass starts from the
/// starting amount or from the quantity of some leg's best level; the first
/// leg trades what the lot-size rule of its market makes of that start, each
/// later leg what its rule makes of the previous leg's amount; the fees are
/// the taker fees on those amounts, added from `0.0` in leg order; and the
/// profit is the last amount less the fees, less the start of that pass.
pub proof fn law_priced_route_amounts(
    fees: Seq<TradeFee>,
    info: ExchangeInformation,
    legs: Seq<Leg>,
    start: Dec,
    r: Option<(Dec, Dec, Seq<Dec>, Seq<Dec>)>,
)
    requires
        1 <= legs.len() <= 3,
        profit_outcome(fees, info, quotes(legs), start, r),
        r is Some,
    ensures
        exists|b: Dec|
            {
                &&& (b == start || exists|k: int|
                    0 <= k < legs.len() && b == match (#[trigger] legs[k]).1 {
                        OrderSide::Buy => legs[k].2.asks@[0].qty,
                        OrderSide::Sell => legs[k].2.bids@[0].qty,
                    })
                &&& adhere_result(info, legs[0].0.pair1@ + legs[0].0.pair2@, b) == Some(r->Some_0.2[0])
                &&& match decimal_checked_sub(r->Some_0.2[legs.len() - 1], r->Some_0.1) {
                    Some(left) => decimal_checked_sub(left, b) == Some(r->Some_0.0),
                    None => false,
                }
            },
        forall|k: int|
            0 < k < legs.len() ==> adhere_result(info, (#[trigger] legs[k]).0.pair1@ + legs[k].0.pair2@, r->Some_0.2[k - 1])
                == Some(r->Some_0.2[k]),
        fees_paid(fees, leg_names(legs), r->Some_0.2, legs.len() as int) == Some(r->Some_0.1),
{
    let qs = quotes(legs);
    let names = leg_names(legs);
    let (n, b) = choose|n: nat, b: Dec|
        #[trigger] reruns(fees, info, qs, start, b, n) && !(first_pass(fees, info, qs, b) is Rerun)
            && r == settle(first_pass(fees, info, qs, b), b);
    let z = zero_point_zero();
    let pass = first_pass(fees, info, qs, b);
    let (c, f, q, p) = (pass->Done_0, pass->Done_1, pass->Done_2, pass->Done_3);
    assert forall|k: int| 0 <= k < qs.len() implies (#[trigger] qs[k]).0 == names[k] by {}
    assert(fees_paid(fees, names, seq![z, z, z], 0) == Some(z));
    lemma_done_chain(fees, info, qs, names, 0, b, z, seq![z, z, z], seq![z, z, z], c, f, q, p);
    lemma_rerun_source(fees, info, legs, start, b, n);
}

/// The start of every pass is the starting amount or the quantity of some
/// leg's best level.
proof fn lemma_rerun_source(fees: Seq<TradeFee>, info: ExchangeInformation, legs: Seq<Leg>, start: Dec, b: Dec, n: nat)
    requires
        reruns(fees, info, quotes(legs), start, b, n),
    ensures
        b == start || exists|k: int|
            0 <= k < legs.len() && b == match (#[trigger] legs[k]).1 {
                OrderSide::Buy => legs[k].2.asks@[0].qty,
                OrderSide::Sell => legs[k].2.bids@[0].qty,
            },
    decreases n,
{
    if n > 0 {
        let qs = quotes(legs);
        let z = zero_point_zero();
        let x = first_pass(fees, info, qs, start)->Rerun_0;
        lemma_rerun_from_quote(fees, info, qs, 0, start, z, seq![z, z, z], seq![z, z, z]);
        let k = choose|k: int| 0 <= k < qs.len() && (#[trigger] qs[k]).1.qty == x;
        assert(qs[k] == (pair_name(legs[k].0@), quote_of(legs[k])));
        lemma_rerun_source(fees, info, legs, x, b, (n - 1) as nat);
        if b != x {
            let j = choose|j: int|
                0 <= j < legs.len() && b == match (#[trigger] legs[j]).1 {
                    OrderSide::Buy => legs[j].2.asks@[0].qty,
                    OrderSide::Sell => legs[j].2.bids@[0].qty,
                };
        } else {
            assert(b == match legs[k].1 {
                OrderSide::Buy => legs[k].2.asks@[0].qty,
                OrderSide::Sell => legs[k].2.bids@[0].qty,
            });
        }
    }
}

/// A pass that reruns does so from the quantity of some leg's quote.
proof fn lemma_rerun_from_quote(
    fees: Seq<TradeFee>,
    info: ExchangeInformation,
    qs: Seq<Quote>,
    i: int,
    coin: Dec,
    fee_total: Dec,
    qtys: Seq<Dec>,
    prices: Seq<Dec>,
)
    requires
        0 <= i,
        pass_from(fees, info, qs, i, coin, fee_total, qtys, prices) is Rerun,
    ensures
        quoted(qs, pass_from(fees, info, qs, i, coin, fee_total, qtys, prices)->Rerun_0),
    decreases qs.len() - i,
{
    if i < qs.len() {
        let name = qs[i].0;
        let level = qs[i].1;
        let amount = adhere_result(info, name, coin)->Some_0;
        if level.qty.lt_value(amount) {
            assert(qs[i].1.qty == level.qty);
        } else {
            let fv = fee_of(fees, name)->Some_0;
            let cost = decimal_checked_mul(amount, fv)->Some_0;
            let total = decimal_checked_add(fee_total, cost)->Some_0;
            lemma_rerun_from_quote(fees, info, qs, i + 1, amount, total, qtys.update(i, amount), prices.update(i, level.price));
        }
    }
}

/// One pass as the code holds it.
enum PassOut {
    Done(Dec, Dec, [Dec; 3], [Dec; 3]),
    Fail,
    Stuck,
    Rerun(Dec),
}

spec fn pass_out_view(p: PassOut) -> Pass {
    match p {
        PassOut::Done(c, f, q, pr) => Pass::Done(c, f, q@, pr@),
        PassOut::Fail => Pass::Fail,
        PassOut::Stuck => Pass::Stuck,
        PassOut::Rerun(x) => Pass::Rerun(x),
    }
}

/// Some leg's best level holds the quantity `x`.
spec fn quoted(qs: Seq<Quote>, x: Dec) -> bool {
    exists|k: int| 0 <= k < qs.len() && (#[trigger] qs[k]).1.qty == x
}

/// One pass of the route from `start`.
fn price_pass(
    trading_fees: &Vec<TradeFee>,
    exchange_info: &ExchangeInformation,
    order_data: &[Leg],
    start: Dec,
) -> (r: PassOut)
    requires
        route_ok(trading_fees@, *exchange_info, order_data@, start),
    ensures
        pass_out_view(r) == first_pass(trading_fees@, *exchange_info, quotes(order_data@), start),
        r matches PassOut::Done(c, f, q, p) ==> c.wf() && f.wf() && all_wf(q@) && all_wf(p@),
        r matches PassOut::Rerun(x) ==> x.wf() && quoted(quotes(order_data@), x),
        plain_route(*exchange_info, order_data@) ==> !(r is Stuck) && (r matches PassOut::Rerun(x)
            ==> x.lt_value(start) && nonneg(x)),
{
    let ghost fees = trading_fees@;
    let ghost info = *exchange_info;
    let ghost legs = order_data@;
    let ghost qs = quotes(legs);
    let zero = Dec { mantissa: 0, scale: 1 };
    let mut coin_qty = start;
    let mut fee_total = zero;
    let mut qtys: [Dec; 3] = [zero, zero, zero];
    let mut prices: [Dec; 3] = [zero, zero, zero];
    assert(qtys@ =~= seq![zero, zero, zero]);
    assert(prices@ =~= seq![zero, zero, zero]);
    let n = order_data.len();
    let mut counter: usize = 0;
    while counter < n
        invariant
            n == legs.len(),
            legs == order_data@,
            qs == quotes(legs),
            fees == trading_fees@,
            info == *exchange_info,
            counter <= n,
            route_ok(fees, info, legs, start),
            coin_qty.wf(),
            at_most_or_nonpositive(coin_qty, start),
            fee_total.wf(),
            qtys@.len() == 3,
            prices@.len() == 3,
            all_wf(qtys@),
            all_wf(prices@),
            first_pass(fees, info, qs, start) == pass_from(
                fees,
                info,
                qs,
                counter as int,
                coin_qty,
                fee_total,
                qtys@,
                prices@,
            ),
        decreases n - counter,
    {
        let leg = &order_data[counter];
        assert(leg_ok(fees, info, legs[counter as int]));
        let level = match leg.1 {
            OrderSide::Buy => leg.2.asks[0],
            OrderSide::Sell => leg.2.bids[0],
        };
        let ghost name = pair_name(leg.0@);
        assert(qs[counter as int] == (name, level));
        let rule = market_lot_size(exchange_info, &leg.0);
        if let Some(Filter::LotSize { min_qty, max_qty: _, step_size }) = rule {
            if !lt(coin_qty, min_qty) && step_size.mantissa == 0 {
                assert(!plain_route(info, legs)) by {
                    if plain_route(info, legs) {
                        assert(step_not_zero(info, pair_name(legs[counter as int].0@)));
                    }
                }
                return PassOut::Stuck;
            }
        }
        assert(!zero_step_reached(info, name, coin_qty));
        proof {
            lemma_rules_ok_applies(info, name, coin_qty);
        }
        let amount = match adhere_filters(exchange_info, &leg.0, coin_qty, level.price) {
            Some(a) => a,
            None => return PassOut::Fail,
        };
        proof {
            lemma_at_most_chain(amount, coin_qty, start);
        }
        if lt(level.qty, amount) {
            proof {
                if plain_route(info, legs) {
                    assert(nonneg(quote_of(legs[counter as int]).qty));
                    lemma_rerun_below_start(level.qty, amount, start);
                }
            }
            return PassOut::Rerun(level.qty);
        }
        qtys[counter] = amount;
        prices[counter] = level.price;
        coin_qty = amount;
        let fee = match find_fee(trading_fees, &leg.0) {
            Some(f) => f,
            None => return PassOut::Fail,
        };
        let cost = match checked_mul(coin_qty, fee) {
            Some(c) => c,
            None => return PassOut::Fail,
        };
        fee_total = match checked_add(fee_total, cost) {
            Some(t) => t,
            None => return PassOut::Fail,
        };
        counter = counter + 1;
    }
    PassOut::Done(coin_qty, fee_total, qtys, prices)
}

/// How many legs quote a quantity that `seen` does not hold, among the first
/// `n`.
spec fn unseen(qs: Seq<Quote>, seen: Seq<Dec>, n: int) -> nat
    decreases n,
{
    if n <= 0 {
        0
    } else {
        unseen(qs, seen, n - 1) + if seen.contains(qs[n - 1].1.qty) {
            0nat
        } else {
            1nat
        }
    }
}

proof fn lemma_unseen_drops(qs: Seq<Quote>, seen: Seq<Dec>, x: Dec, n: int)
    requires
        !seen.contains(x),
    ensures
        unseen(qs, seen.push(x), n) <= unseen(qs, seen, n),
        (exists|k: int| 0 <= k < n && (#[trigger] qs[k]).1.qty == x) ==> unseen(qs, seen.push(x), n) < unseen(qs, seen, n),
    decreases n,
{
    if n > 0 {
        lemma_unseen_drops(qs, seen, x, n - 1);
        let q = qs[n - 1].1.qty;
        if seen.contains(q) {
            let i = choose|i: int| 0 <= i < seen.len() && seen[i] == q;
            assert(seen.push(x)[i] == q);
        }
        if q == x {
            assert(seen.push(x)[seen.len() as int] == x);
        } else if seen.push(x).contains(q) {
            let i = choose|i: int| 0 <= i < seen.push(x).len() && seen.push(x)[i] == q;
            assert(seen[i] == q);
        }
        if exists|k: int| 0 <= k < n && (#[trigger] qs[k]).1.qty == x {
            let k = choose|k: int| 0 <= k < n && (#[trigger] qs[k]).1.qty == x;
            if k < n - 1 {
                assert(exists|k: int| 0 <= k < n - 1 && (#[trigger] qs[k]).1.qty == x);
            }
        }
    }
}

/// Whether `v` holds `x`.
fn holds(v: &Vec<Dec>, x: Dec) -> (r: bool)
    ensures
        r == v@.contains(x),
{
    let mut i: usize = 0;
    while i < v.len()
        invariant
            i <= v@.len(),
            forall|k: int| 0 <= k < i ==> v@[k] != x,
        decreases v@.len() - i,
    {
        if v[i].mantissa == x.mantissa && v[i].scale == x.scale {
            assert(v@[i as int] == x);
            return true;
        }
        i = i + 1;
    }
    false
}

/// Prices the route from `start`, rerunning as the passes ask: the settled
/// outcome when the run finishes, `None` when it reruns without end or
/// reaches a step of zero.
fn price_route(
    trading_fees: &Vec<TradeFee>,
    exchange_info: &ExchangeInformation,
    order_data: &[Leg],
    start: Dec,
) -> (r: Option<Option<(Dec, Dec, [Dec; 3], [Dec; 3])>>)
    requires
        route_ok(trading_fees@, *exchange_info, order_data@, start),
    ensures
        r is Some <==> run_finishes(trading_fees@, *exchange_info, quotes(order_data@), start),
        r matches Some(x) ==> profit_outcome(
            trading_fees@,
            *exchange_info,
            quotes(order_data@),
            start,
            result_view(x),
        ),
        r matches Some(Some(t)) ==> t.0.wf() && all_wf(t.2@) && all_wf(t.3@),
        plain_route(*exchange_info, order_data@) ==> r is Some,
{
    let ghost fees = trading_fees@;
    let ghost info = *exchange_info;
    let ghost legs = order_data@;
    let ghost qs = quotes(legs);
    let mut seen: Vec<Dec> = Vec::new();
    seen.push(start);
    let mut cur = start;
    assert(reruns(fees, info, qs, start, cur, 0));
    loop
        invariant
            fees == trading_fees@,
            info == *exchange_info,
            legs == order_data@,
            qs == quotes(legs),
            route_ok(fees, info, legs, cur),
            seen@.len() >= 1,
            seen@[0] == start,
            seen@.last() == cur,
            reruns(fees, info, qs, start, cur, (seen@.len() - 1) as nat),
            forall|k: int| 0 <= k < seen@.len() - 1 ==> first_pass(fees, info, qs, #[trigger] seen@[k]) == Pass::Rerun(seen@[k + 1]),
            plain_route(info, legs) ==> forall|k: int| 0 <= k < seen@.len() ==> !(#[trigger] seen@[k]).lt_value(cur),
        decreases unseen(qs, seen@, qs.len() as int),
    {
        let ghost m = (seen@.len() - 1) as nat;
        match price_pass(trading_fees, exchange_info, order_data, cur) {
            PassOut::Done(coin, fee_total, qtys, prices) => {
                assert(run_finishes(fees, info, qs, start));
                assert(profit_outcome(fees, info, qs, start, settle(first_pass(fees, info, qs, cur), cur)));
                let remaining = match checked_sub(coin, fee_total) {
                    Some(c) => c,
                    None => return Some(None),
                };
                let profit = match checked_sub(remaining, cur) {
                    Some(p) => p,
                    None => return Some(None),
                };
                return Some(Some((profit, fee_total, qtys, prices)));
            },
            PassOut::Fail => {
                assert(run_finishes(fees, info, qs, start));
                assert(profit_outcome(fees, info, qs, start, settle(first_pass(fees, info, qs, cur), cur)));
                return Some(None);
            },
            PassOut::Stuck => {
                proof {
                    if run_finishes(fees, info, qs, start) {
                        let (n, b) = choose|n: nat, b: Dec|
                            #[trigger] reruns(fees, info, qs, start, b, n) && (first_pass(fees, info, qs, b) is Done
                                || first_pass(fees, info, qs, b) is Fail);
                        lemma_reruns_end_unique(fees, info, qs, start, b, n, cur, m);
                    }
                }
                return None;
            },
            PassOut::Rerun(x) => {
                if holds(&seen, x) {
                    proof {
                        let j = choose|j: int| 0 <= j < seen@.len() && seen@[j] == x;
                        if plain_route(info, legs) {
                            lemma_lt_le_trans(x, cur, seen@[j]);
                        }
                        if run_finishes(fees, info, qs, start) {
                            let (n, b) = choose|n: nat, b: Dec|
                                #[trigger] reruns(fees, info, qs, start, b, n) && (first_pass(fees, info, qs, b) is Done
                                    || first_pass(fees, info, qs, b) is Fail);
                            lemma_cycle_keeps_rerunning(fees, info, qs, seen@, j, 0, b, n);
                        }
                    }
                    return None;
                }
                proof {
                    lemma_reruns_extend(fees, info, qs, start, cur, m, x);
                    lemma_unseen_drops(qs, seen@, x, qs.len() as int);
                }
                let ghost before = seen@;
                seen.push(x);
                cur = x;
                proof {
                    if plain_route(info, legs) {
                        assert forall|k: int| 0 <= k < seen@.len() implies !(#[trigger] seen@[k]).lt_value(cur) by {
                            if k < before.len() {
                                assert(seen@[k] == before[k]);
                                lemma_lt_le_trans(x, before.last(), before[k]);
                            }
                        }
                    }
                }
            },
        }
    }
}

/// Prices a route from a starting amount (`50.0` when none is given): each
/// leg trades at its best level the amount that the exchange's lot-size rule
/// allows, paying the market's taker fee on it; when a level holds less than
/// the amount, the whole route is priced again from that quantity. Returns
/// the profit (final amount less fees and start), the fees, and each leg's
/// amount and price; `None` when a market, rule or fee is missing, or a sum
/// overflows. The run must finish: see [`route_finishes`].
pub fn calculate_profitablity(
    trading_fees: &Vec<TradeFee>,
    exchange_info: &ExchangeInformation,
    order_data: &[Leg],
    starting_amount: Option<Dec>,
) -> (r: Option<(Dec, Dec, [Dec; 3], [Dec; 3])>)
    requires
        route_ok(trading_fees@, *exchange_info, order_data@, start_of(starting_amount)),
        run_finishes(trading_fees@, *exchange_info, quotes(order_data@), start_of(starting_amount)),
    ensures
        profit_outcome(
            trading_fees@,
            *exchange_info,
            quotes(order_data@),
            start_of(starting_amount),
            result_view(r),
        ),
        r matches Some(t) ==> t.0.wf() && all_wf(t.2@) && all_wf(t.3@),
{
    let start = match starting_amount {
        Some(a) => a,
        None => Dec { mantissa: 500, scale: 1 },
    };
    match price_route(trading_fees, exchange_info, order_data, start) {
        Some(priced) => priced,
        None => None,
    }
}

/// Whether pricing the route from the starting amount (`50.0` when none is
/// given) finishes: its passes neither rerun without end nor reach a
/// lot-size rule whose step is zero with an amount at or above the minimum.
/// It always does when the best quantities are not negative and no step is
/// zero: each rerun starts from less than the one before.
pub fn route_finishes(
    trading_fees: &Vec<TradeFee>,
    exchange_info: &ExchangeInformation,
    order_data: &[Leg],
    starting_amount: Option<Dec>,
) -> (r: bool)
    requires
        route_ok(trading_fees@, *exchange_info, order_data@, start_of(starting_amount)),
    ensures
        r == run_finishes(trading_fees@, *exchange_info, quotes(order_data@), start_of(starting_amount)),
        plain_route(*exchange_info, order_data@) ==> r,
{
    let start = match starting_amount {
        Some(a) => a,
        None => Dec { mantissa: 500, scale: 1 },
    };
    price_route(trading_fees, exchange_info, order_data, start).is_some()
}

/// An order to place on a market.
#[derive(Debug, Clone)]
pub struct OrderStruct {
    pub symbol: String,
    pub side: OrderSide,
    pub price: Dec,
    pub amount: Dec,
}

/// An order as plain values: market name, side, price and amount.
pub type OrderView = (Seq<char>, OrderSide, Dec, Dec);

pub open spec fn order_view(o: OrderStruct) -> OrderView {
    (o.symbol@, o.side, o.price, o.amount)
}

pub open spec fn orders_view(v: Seq<OrderStruct>) -> Seq<OrderView> {
    v.map_values(|o: OrderStruct| order_view(o))
}

/// The amount ordered on leg `k`: the first leg's quantity as it is, a later
/// leg's quantity less the market's taker fee on it.
pub open spec fn order_amount(fees: Seq<TradeFee>, leg: Leg, k: int, q: Dec) -> Option<Dec> {
    if k > 0 {
        match fee_of(fees, pair_name(leg.0@)) {
            None => None,
            Some(f) => match decimal_checked_mul(q, f) {
                None => None,
                Some(c) => decimal_checked_sub(q, c),
            },
        }
    } else {
        Some(q)
    }
}

/// The orders for legs `0..k`, or `None` when one of them cannot be made.
pub open spec fn orders_upto(fees: Seq<TradeFee>, legs: Seq<Leg>, qtys: Seq<Dec>, prices: Seq<Dec>, k: int) -> Option<Seq<OrderView>>
    decreases k,
{
    if k <= 0 {
        Some(seq![])
    } else {
        match orders_upto(fees, legs, qtys, prices, k - 1) {
            None => None,
            Some(prev) => match order_amount(fees, legs[k - 1], k - 1, qtys[k - 1]) {
                None => None,
                Some(a) => Some(prev.push((pair_name(legs[k - 1].0@), legs[k - 1].1, prices[k - 1], a))),
            },
        }
    }
}

proof fn lemma_orders_upto_none(fees: Seq<TradeFee>, legs: Seq<Leg>, qtys: Seq<Dec>, prices: Seq<Dec>, k: int, j: int)
    requires
        k <= j,
        orders_upto(fees, legs, qtys, prices, k) is None,
    ensures
        orders_upto(fees, legs, qtys, prices, j) is None,
    decreases j - k,
{
    if k < j {
        lemma_orders_upto_none(fees, legs, qtys, prices, k, j - 1);
    }
}

/// Orders built up to leg `k` are one per leg, in order, each on the leg's
/// market and side at the given price; the first orders the leg's quantity
/// as it is, every later one the quantity less the market's taker fee on it.
proof fn lemma_orders_upto_shape(
    fees: Seq<TradeFee>,
    legs: Seq<Leg>,
    qtys: Seq<Dec>,
    prices: Seq<Dec>,
    k: int,
    v: Seq<OrderView>,
)
    requires
        0 <= k,
        orders_upto(fees, legs, qtys, prices, k) == Some(v),
    ensures
        v.len() == k,
        forall|j: int|
            0 <= j < k ==> ({
                let o = #[trigger] v[j];
                &&& o.0 == legs[j].0.pair1@ + legs[j].0.pair2@
                &&& o.1 == legs[j].1
                &&& o.2 == prices[j]
                &&& j == 0 ==> o.3 == qtys[0]
                &&& j > 0 ==> match fee_of(fees, legs[j].0.pair1@ + legs[j].0.pair2@) {
                    Some(fee) => match decimal_checked_mul(qtys[j], fee) {
                        Some(cut) => decimal_checked_sub(qtys[j], cut) == Some(o.3),
                        None => false,
                    },
                    None => false,
                }
            }),
    decreases k,
{
    if k > 0 {
        let prev = orders_upto(fees, legs, qtys, prices, k - 1)->Some_0;
        lemma_orders_upto_shape(fees, legs, qtys, prices, k - 1, prev);
        assert forall|j: int| 0 <= j < k - 1 implies v[j] == #[trigger] prev[j] by {
        }
    }
}

/// The orders for a route are one per leg, in the legs' order: each on the
/// leg's market and side, at the leg's price; the first for the leg's
/// quantity, each later one for the quantity less the market's taker fee on
/// it, whichever side the leg takes.
pub proof fn law_order_per_leg(
    fees: Seq<TradeFee>,
    legs: Seq<Leg>,
    qtys: Seq<Dec>,
    prices: Seq<Dec>,
    v: Seq<OrderView>,
)
    requires
        orders_upto(fees, legs, qtys, prices, legs.len() as int) == Some(v),
    ensures
        v.len() == legs.len(),
        forall|j: int|
            0 <= j < legs.len() ==> ({
                let o = #[trigger] v[j];
                &&& o.0 == legs[j].0.pair1@ + legs[j].0.pair2@
                &&& o.1 == legs[j].1
                &&& o.2 == prices[j]
                &&& j == 0 ==> o.3 == qtys[0]
                &&& j > 0 ==> match fee_of(fees, legs[j].0.pair1@ + legs[j].0.pair2@) {
                    Some(fee) => match decimal_checked_mul(qtys[j], fee) {
                        Some(cut) => decimal_checked_sub(qtys[j], cut) == Some(o.3),
                        None => false,
                    },
                    None => false,
                }
            }),
{
    lemma_orders_upto_shape(fees, legs, qtys, prices, legs.len() as int, v);
}

/// The orders that carry out a route: on each leg's market and side, at the
/// given price, for the given quantity (less the taker fee after the first
/// leg). `None` when a later leg's market has no fee, or a product or
/// difference overflows.
pub fn create_order(
    trading_fees: &Vec<TradeFee>,
    order_data: &[Leg],
    qtys: &[Dec],
    prices: &[Dec],
) -> (r: Option<Vec<OrderStruct>>)
    requires
        qtys@.len() >= order_data@.len(),
        prices@.len() >= order_data@.len(),
        forall|k: int| 0 <= k < order_data@.len() ==> (#[trigger] qtys@[k]).wf(),
        forall|k: int|
            0 <= k < order_data@.len() ==> (fee_of(trading_fees@, pair_name(#[trigger] order_data@[k].0@))
                matches Some(f) ==> f.wf()),
    ensures
        match orders_upto(trading_fees@, order_data@, qtys@, prices@, order_data@.len() as int) {
            Some(v) => r matches Some(o) && orders_view(o@) == v,
            None => r is None,
        },
{
    let mut orders: Vec<OrderStruct> = Vec::new();
    let n = order_data.len();
    let mut count: usize = 0;
    assert(orders_view(orders@) =~= seq![]);
    while count < n
        invariant
            n == order_data@.len(),
            count <= n,
            qtys@.len() >= n,
            prices@.len() >= n,
            forall|k: int| 0 <= k < n ==> (#[trigger] qtys@[k]).wf(),
            forall|k: int|
                0 <= k < n ==> (fee_of(trading_fees@, pair_name(#[trigger] order_data@[k].0@))
                    matches Some(f) ==> f.wf()),
            orders_upto(trading_fees@, order_data@, qtys@, prices@, count as int) == Some(orders_view(orders@)),
        decreases n - count,
    {
        let leg = &order_data[count];
        let q = qtys[count];
        let ghost fk = fee_of(trading_fees@, pair_name(order_data@[count as int].0@));
        assert(fk matches Some(f) ==> f.wf());
        let amount = if count > 0 {
            let fee = match find_fee(trading_fees, &leg.0) {
                Some(f) => f,
                None => {
                    proof {
                        lemma_orders_upto_none(trading_fees@, order_data@, qtys@, prices@, count + 1, n as int);
                    }
                    return None;
                },
            };
            let cost = match checked_mul(q, fee) {
                Some(c) => c,
                None => {
                    proof {
                        lemma_orders_upto_none(trading_fees@, order_data@, qtys@, prices@, count + 1, n as int);
                    }
                    return None;
                },
            };
            match checked_sub(q, cost) {
                Some(a) => a,
                None => {
                    proof {
                        lemma_orders_upto_none(trading_fees@, order_data@, qtys@, prices@, count + 1, n as int);
                    }
                    return None;
                },
            }
        } else {
            q
        };
        let order = OrderStruct { symbol: leg.0.pair(), side: leg.1, price: prices[count], amount };
        assert(orders_view(orders@.push(order)) =~= orders_view(orders@).push(order_view(order)));
        orders.push(order);
        count = count + 1;
    }
    Some(orders)
}

} // verus!
