//! The momentum strategy: a one-minute rise of at least one percent buys at
//! the next minute and sells one minute later.
use vstd::prelude::*;
use crate::price::{Price, rises_one_percent, no_loss, rises_one_percent_exec, no_loss_exec};
use crate::record::{InstrumentKey, id_text};
use crate::series::{PriceSeries, KeyView};

verus! {

/// A trade as contracts see it: prices and minute offsets.
pub struct TradeView {
    pub buy: Price,
    pub sell: Price,
    pub buy_time: int,
    pub sell_time: int,
}

/// The offset `t` gives a trade: its price, the next minute's and the one
/// after are all present, and the next minute rose at least one percent.
pub open spec fn trade_at(m: Map<i64, Price>, t: i64) -> bool {
    &&& t < i64::MAX - 1
    &&& m.contains_key(t)
    &&& m.contains_key((t + 1) as i64)
    &&& m.contains_key((t + 2) as i64)
    &&& rises_one_percent(m[t], m[(t + 1) as i64])
}

/// The trade that offset `t` gives: buy at `t + 1`, sell at `t + 2`.
pub open spec fn trade_from(m: Map<i64, Price>, t: i64) -> TradeView {
    TradeView {
        buy: m[(t + 1) as i64],
        sell: m[(t + 2) as i64],
        buy_time: t + 1,
        sell_time: t + 2,
    }
}

/// The trades of a series, one per offset that gives one, in the order of
/// `offs`.
pub open spec fn trades_of(m: Map<i64, Price>, offs: Seq<i64>) -> Seq<TradeView>
    decreases offs.len(),
{
    if offs.len() == 0 {
        Seq::empty()
    } else {
        let rest = trades_of(m, offs.drop_last());
        if trade_at(m, offs.last()) {
            rest.push(trade_from(m, offs.last()))
        } else {
            rest
        }
    }
}

/// How many of `ts` lose nothing.
pub open spec fn count_no_loss(ts: Seq<TradeView>) -> nat
    decreases ts.len(),
{
    if ts.len() == 0 {
        0
    } else {
        count_no_loss(ts.drop_last()) + if no_loss(ts.last().buy, ts.last().sell) {
            1nat
        } else {
            0nat
        }
    }
}

/// One simulated buy and sell.
#[derive(Debug)]
pub struct Deal {
    pub buy_price: Price,
    pub sell_price: Price,
    pub buy_time: i64,
    pub sell_time: i64,
    pub exchange_id: String,
    pub pre_coin: String,
    pub post_coin: String,
}

impl Deal {
    pub open spec fn view(&self) -> TradeView {
        TradeView {
            buy: self.buy_price,
            sell: self.sell_price,
            buy_time: self.buy_time as int,
            sell_time: self.sell_time as int,
        }
    }

    pub open spec fn key_view(&self) -> KeyView {
        (self.exchange_id@, self.pre_coin@, self.post_coin@)
    }

    pub fn new(
        buy_price: Price,
        sell_price: Price,
        buy_time: i64,
        sell_time: i64,
        exchange_id: String,
        pre_coin: String,
        post_coin: String,
    ) -> (r: Deal)
        ensures
            r.buy_price == buy_price,
            r.sell_price == sell_price,
            r.buy_time == buy_time,
            r.sell_time == sell_time,
            r.exchange_id == exchange_id,
            r.pre_coin == pre_coin,
            r.post_coin == post_coin,
    {
        Deal { buy_price, sell_price, buy_time, sell_time, exchange_id, pre_coin, post_coin }
    }

    /// The instrument key text `exchange-base-quote`.
    pub fn get_id(&self) -> (r: String)
        ensures
            r@ == id_text(self.exchange_id@, self.pre_coin@, self.post_coin@),
    {
        let k = InstrumentKey {
            exchange_id: self.exchange_id.clone(),
            pre_coin: self.pre_coin.clone(),
            post_coin: self.post_coin.clone(),
        };
        k.id()
    }

    /// Whether the sale lost nothing, that is the profit is not negative.
    pub fn no_loss(&self) -> (r: bool)
        requires
            self.buy_price.wf(),
            self.sell_price.wf(),
        ensures
            r == no_loss(self.buy_price, self.sell_price),
    {
        no_loss_exec(self.buy_price, self.sell_price)
    }
}

/// The deals of a sequence, seen as trades.
pub open spec fn deals_view(ds: Seq<Deal>) -> Seq<TradeView> {
    ds.map_values(|d: Deal| d.view())
}

/// One instrument's outcome: its key text, its deals in the order they
/// were made, and how many of them lost nothing.
#[derive(Debug)]
pub struct BackResult {
    pub id: String,
    pub deal_vec: Vec<Deal>,
    pub suc_cnt: u64,
}

impl BackResult {
    pub fn new(id: String, deal_vec: Vec<Deal>, suc_cnt: u64) -> (r: BackResult)
        ensures
            r.id == id,
            r.deal_vec == deal_vec,
            r.suc_cnt == suc_cnt,
    {
        BackResult { id, deal_vec, suc_cnt }
    }

    pub fn deal_vec(&self) -> (r: &Vec<Deal>)
        ensures
            r == &self.deal_vec,
    {
        &self.deal_vec
    }

    pub fn id(&self) -> (r: &String)
        ensures
            r == &self.id,
    {
        &self.id
    }

    /// Number of deals that lost nothing.
    pub fn suc_cnt(&self) -> (r: u64)
        ensures
            r == self.suc_cnt,
    {
        self.suc_cnt
    }

    /// The success ratio as a fraction `(numerator, denominator)`: deals
    /// that lost nothing over all deals, and `0 / 1` when there are none.
    pub fn suc_ratio(&self) -> (r: (u64, u64))
        ensures
            r.1 > 0,
            self.deal_vec@.len() == 0 ==> r == (0u64, 1u64),
            self.deal_vec@.len() > 0 ==> r.0 == self.suc_cnt && r.1 == self.deal_vec@.len(),
    {
        let n = self.deal_vec.len();
        if n == 0 {
            (0, 1)
        } else {
            (self.suc_cnt, n as u64)
        }
    }
}

proof fn lemma_trades_prefix_len(m: Map<i64, Price>, offs: Seq<i64>)
    ensures
        trades_of(m, offs).len() <= offs.len(),
        count_no_loss(trades_of(m, offs)) <= trades_of(m, offs).len(),
    decreases offs.len(),
{
    if offs.len() > 0 {
        lemma_trades_prefix_len(m, offs.drop_last());
        let ts = trades_of(m, offs);
        if ts.len() > 0 {
            lemma_count_no_loss_le(ts);
        }
    }
}

proof fn lemma_count_no_loss_le(ts: Seq<TradeView>)
    ensures
        count_no_loss(ts) <= ts.len(),
    decreases ts.len(),
{
    if ts.len() > 0 {
        lemma_count_no_loss_le(ts.drop_last());
    }
}

/// Runs the strategy over one instrument's series: every offset, in the
/// series' order, that gives a trade adds a deal carrying the instrument's
/// names, and the deals that lose nothing are counted.
pub fn back_by_type(key: &InstrumentKey, v: &PriceSeries) -> (r: BackResult)
    requires
        v.wf(),
    ensures
        r.id@ == id_text(key.exchange_id@, key.pre_coin@, key.post_coin@),
        deals_view(r.deal_vec@) == trades_of(v.prices@, v.offsets@),
        forall|i: int| 0 <= i < r.deal_vec@.len() ==> #[trigger] r.deal_vec@[i].key_view()
            == key.view_parts(),
        r.suc_cnt == count_no_loss(trades_of(v.prices@, v.offsets@)),
{
    let n = v.offsets.len();
    let mut deal_vec: Vec<Deal> = Vec::new();
    let mut suc_cnt: u64 = 0;
    let mut i: usize = 0;
    while i < n
        invariant
            v.wf(),
            n == v.offsets@.len(),
            i <= n,
            deals_view(deal_vec@) == trades_of(v.prices@, v.offsets@.take(i as int)),
            forall|j: int| 0 <= j < deal_vec@.len() ==> #[trigger] deal_vec@[j].key_view()
                == key.view_parts(),
            suc_cnt == count_no_loss(trades_of(v.prices@, v.offsets@.take(i as int))),
            suc_cnt <= i,
        decreases n - i,
    {
        let t = v.offsets[i];
        let ghost m = v.prices@;
        let ghost pre = v.offsets@.take(i as int);
        let ghost next = v.offsets@.take(i + 1);
        assert(next.drop_last() =~= pre);
        assert(next.last() == t);
        assert(v.offsets@.contains(t));
        proof {
            lemma_trades_prefix_len(m, pre);
        }
        if t < i64::MAX - 1 {
            let p0 = v.get(t);
            let p1 = v.get(t + 1);
            let p2 = v.get(t + 2);
            if let (Some(a), Some(b), Some(c)) = (p0, p1, p2) {
                if rises_one_percent_exec(a, b) {
                    let deal = Deal::new(
                        b,
                        c,
                        t + 1,
                        t + 2,
                        key.exchange_id.clone(),
                        key.pre_coin.clone(),
                        key.post_coin.clone(),
                    );
                    let ok = deal.no_loss();
                    let ghost before = deal_vec@;
                    deal_vec.push(deal);
                    assert(deals_view(deal_vec@) =~= deals_view(before).push(
                        trade_from(m, t),
                    ));
                    assert(trades_of(m, next) == trades_of(m, pre).push(trade_from(m, t)));
                    assert(trades_of(m, next).drop_last() =~= trades_of(m, pre));
                    if ok {
                        suc_cnt = suc_cnt + 1;
                    }
                }
            }
        }
        i = i + 1;
    }
    assert(v.offsets@.take(n as int) =~= v.offsets@);
    BackResult { id: key.id(), deal_vec, suc_cnt }
}

/// A trade's profit `sell / buy - 1` as a fraction `(numerator, denominator)`,
/// both prices brought to a common scale.
pub open spec fn profit(t: TradeView) -> (int, int) {
    let b = t.buy.scaled(t.sell.scale as nat);
    let s = t.sell.scaled(t.buy.scale as nat);
    (s - b, b)
}

/// The value multiplier of a sequence of trades, as a fraction: the
/// product of `sell / buy` over the trades, starting from `1 / 1`.
pub open spec fn value_multiplier(ts: Seq<TradeView>) -> (int, int)
    decreases ts.len(),
{
    if ts.len() == 0 {
        (1, 1)
    } else {
        let v = value_multiplier(ts.drop_last());
        let t = ts.last();
        (v.0 * t.sell.scaled(t.buy.scale as nat), v.1 * t.buy.scaled(t.sell.scale as nat))
    }
}

/// The product of `1 + profit` over the trades, as a fraction.
pub open spec fn product_of_growth(ts: Seq<TradeView>) -> (int, int)
    decreases ts.len(),
{
    if ts.len() == 0 {
        (1, 1)
    } else {
        let v = product_of_growth(ts.drop_last());
        let p = profit(ts.last());
        (v.0 * (p.1 + p.0), v.1 * p.1)
    }
}

/// An instrument without trades keeps its value: the multiplier is exactly one.
pub proof fn lemma_no_trades_value_one(ts: Seq<TradeView>)
    requires
        ts.len() == 0,
    ensures
        value_multiplier(ts) == (1int, 1int),
{
}

/// The value multiplier is the product of `1 + profit` over the trades, in
/// their order, each factor as the trade's own profit gives it.
pub proof fn lemma_value_is_product_of_growth(ts: Seq<TradeView>)
    ensures
        value_multiplier(ts) == product_of_growth(ts),
    decreases ts.len(),
{
    if ts.len() > 0 {
        lemma_value_is_product_of_growth(ts.drop_last());
    }
}

/// A trade that loses nothing has a profit that is not negative.
pub proof fn lemma_no_loss_is_non_negative_profit(t: TradeView)
    requires
        t.buy.mantissa > 0,
    ensures
        no_loss(t.buy, t.sell) <==> profit(t).0 >= 0,
        profit(t).1 > 0,
{
    crate::price::lemma_pow10_positive(t.sell.scale as nat);
    let b = t.buy.mantissa as int;
    let q = crate::price::pow10(t.sell.scale as nat) as int;
    assert(b * q > 0) by (nonlinear_arith)
        requires
            b > 0,
            q >= 1,
    {
    }
}

} // verus!
