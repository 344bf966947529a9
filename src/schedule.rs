//! The batch scheduler: instruments are run in consecutive batches of a
//! bounded width, and each outcome is folded into the final report.
use vstd::prelude::*;
use crate::record::id_text;
use crate::series::{KeyView, PriceStore};
use crate::price::Price;
use crate::strategy::{
    BackResult, TradeView, back_by_type, count_no_loss, deals_view, trades_of, value_multiplier,
};

verus! {

/// An instrument's outcome as contracts see it.
pub struct ResultView {
    pub id: Seq<char>,
    pub trades: Seq<TradeView>,
    pub suc_cnt: nat,
}

impl BackResult {
    pub open spec fn view(&self) -> ResultView {
        ResultView { id: self.id@, trades: deals_view(self.deal_vec@), suc_cnt: self.suc_cnt as nat }
    }
}

/// The outcome that the strategy owes an instrument.
pub open spec fn expected_result(k: KeyView, m: Map<i64, Price>, offs: Seq<i64>) -> ResultView {
    ResultView {
        id: id_text(k.0, k.1, k.2),
        trades: trades_of(m, offs),
        suc_cnt: count_no_loss(trades_of(m, offs)),
    }
}

/// The outcomes owed to every instrument of the store, in its order.
pub open spec fn expected_results(s: PriceStore) -> Seq<ResultView> {
    Seq::new(
        s.keys@.len(),
        |i: int|
            expected_result(s.keys@[i].view_parts(), s.series@[i].prices@, s.series@[i].offsets@),
    )
}

/// What running `es` in batches of width `w` from position `start` collects:
/// each batch's outcomes, batch after batch.
pub open spec fn run_batches(es: Seq<ResultView>, start: nat, w: nat) -> Seq<ResultView>
    decreases es.len() - start,
    when w > 0
{
    if start >= es.len() {
        Seq::empty()
    } else if start + w >= es.len() {
        es.subrange(start as int, es.len() as int)
    } else {
        es.subrange(start as int, (start + w) as int) + run_batches(es, (start + w) as nat, w)
    }
}

/// Running in batches collects every outcome once, in order.
pub proof fn lemma_run_batches_all(es: Seq<ResultView>, start: nat, w: nat)
    requires
        w > 0,
        start <= es.len(),
    ensures
        run_batches(es, start, w) == es.subrange(start as int, es.len() as int),
    decreases es.len() - start,
{
    if start < es.len() {
        if start + w < es.len() {
            lemma_run_batches_all(es, (start + w) as nat, w);
            assert(es.subrange(start as int, (start + w) as int) + es.subrange((start + w) as int, es.len() as int)
                =~= es.subrange(start as int, es.len() as int));
        }
    } else {
        assert(es.subrange(start as int, es.len() as int) =~= Seq::<ResultView>::empty());
    }
}

/// The report does not depend on the batch width: two positive widths
/// collect the same outcomes in the same order.
pub proof fn lemma_width_independent(es: Seq<ResultView>, w1: nat, w2: nat)
    requires
        w1 > 0,
        w2 > 0,
    ensures
        run_batches(es, 0, w1) == run_batches(es, 0, w2),
{
    lemma_run_batches_all(es, 0, w1);
    lemma_run_batches_all(es, 0, w2);
}

/// The batches for `n` instruments at width `w`: consecutive ranges
/// `[start, end)` from `0` to `n`, each `w` long but the last, which may be
/// shorter.
pub open spec fn is_batch_plan(r: Seq<(usize, usize)>, n: nat, w: nat) -> bool {
    &&& n == 0 ==> r.len() == 0
    &&& n > 0 ==> r.len() > 0 && r[0].0 == 0 && r.last().1 == n
    &&& forall|k: int| 0 <= k < r.len() ==> {
        &&& #[trigger] r[k].0 < r[k].1
        &&& r[k].1 == if r[k].0 + w <= n { r[k].0 + w } else { n as int }
    }
    &&& forall|k: int| 0 <= k < r.len() - 1 ==> #[trigger] r[k].1 == r[k + 1].0
}

/// Splits `n` instruments into batches of width `w`.
pub fn batch_ranges(n: usize, w: usize) -> (r: Vec<(usize, usize)>)
    requires
        w > 0,
    ensures
        is_batch_plan(r@, n as nat, w as nat),
{
    let mut r: Vec<(usize, usize)> = Vec::new();
    let mut start: usize = 0;
    while start < n
        invariant
            w > 0,
            start <= n,
            r@.len() == 0 ==> start == 0,
            r@.len() > 0 ==> r@[0].0 == 0 && r@.last().1 == start,
            forall|k: int| 0 <= k < r@.len() ==> {
                &&& #[trigger] r@[k].0 < r@[k].1
                &&& r@[k].1 == if r@[k].0 + w <= n { r@[k].0 + w } else { n as int }
            },
            forall|k: int| 0 <= k < r@.len() - 1 ==> #[trigger] r@[k].1 == r@[k + 1].0,
        decreases n - start,
    {
        let end = if w <= n - start { start + w } else { n };
        r.push((start, end));
        start = end;
    }
    r
}

/// The outcomes of all instruments, in the order they were folded in.
#[derive(Debug)]
pub struct FinalResult {
    pub result_vec: Vec<BackResult>,
}

impl FinalResult {
    pub open spec fn view(&self) -> Seq<ResultView> {
        self.result_vec@.map_values(|b: BackResult| b.view())
    }

    pub fn new(result_vec: Vec<BackResult>) -> (r: FinalResult)
        ensures
            r.result_vec == result_vec,
    {
        FinalResult { result_vec }
    }

    pub fn result_vec(&self) -> (r: &Vec<BackResult>)
        ensures
            r == &self.result_vec,
    {
        &self.result_vec
    }

    /// Folds one instrument's outcome into the report.
    pub fn absorb(&mut self, b: BackResult)
        ensures
            final(self).result_vec@ == old(self).result_vec@.push(b),
            final(self).view() == old(self).view().push(b.view()),
    {
        self.result_vec.push(b);
        assert(self.view() =~= old(self).view().push(b.view()));
    }
}

/// Runs every instrument of the store, batch after batch at width `w`, and
/// folds each outcome into the report as its batch completes.
pub fn back_test(store: &PriceStore, w: usize) -> (r: FinalResult)
    requires
        store.wf(),
        w > 0,
    ensures
        r.view() == run_batches(expected_results(*store), 0, w as nat),
        r.view() == expected_results(*store),
{
    let n = store.keys.len();
    let plan = batch_ranges(n, w);
    let ghost es = expected_results(*store);
    let mut report = FinalResult::new(Vec::new());
    let mut k: usize = 0;
    assert(report.view() =~= es.subrange(0, 0));
    while k < plan.len()
        invariant
            store.wf(),
            n == store.keys@.len(),
            es == expected_results(*store),
            is_batch_plan(plan@, n as nat, w as nat),
            k <= plan@.len(),
            k < plan@.len() ==> report.view() == es.subrange(0, plan@[k as int].0 as int),
            k == plan@.len() ==> report.view() == es,
        decreases plan@.len() - k,
    {
        let (start, end) = plan[k];
        let mut i: usize = start;
        while i < end
            invariant
                store.wf(),
                n == store.keys@.len(),
                es == expected_results(*store),
                start <= i <= end <= n,
                report.view() == es.subrange(0, i as int),
            decreases end - i,
        {
            let b = back_by_type(&store.keys[i], &store.series[i]);
            assert(b.view() == es[i as int]);
            report.absorb(b);
            assert(report.view() =~= es.subrange(0, i + 1));
            i = i + 1;
        }
        if k + 1 == plan.len() {
            assert(es.subrange(0, n as int) =~= es);
        }
        k = k + 1;
    }
    if n == 0 {
        assert(report.view() =~= es);
    }
    proof {
        lemma_run_batches_all(es, 0, w as nat);
        assert(es.subrange(0, es.len() as int) =~= es);
    }
    report
}

/// Sum of fractions from left to right: `a/b + c/d = (a*d + c*b) / (b*d)`.
pub open spec fn fraction_sum(vs: Seq<(int, int)>) -> (int, int)
    decreases vs.len(),
{
    if vs.len() == 0 {
        (0, 1)
    } else {
        let s = fraction_sum(vs.drop_last());
        let v = vs.last();
        (s.0 * v.1 + v.0 * s.1, s.1 * v.1)
    }
}

/// Each instrument's value multiplier, as a fraction.
pub open spec fn report_values(rs: Seq<ResultView>) -> Seq<(int, int)> {
    rs.map_values(|r: ResultView| value_multiplier(r.trades))
}

/// The aggregate average return `(sum of value multipliers) / N - 1`, as a
/// fraction.
pub open spec fn average_return(rs: Seq<ResultView>) -> (int, int) {
    let s = fraction_sum(report_values(rs));
    let n = rs.len() as int;
    (s.0 - n * s.1, n * s.1)
}

/// `vs` with the neighbours at `i` and `i + 1` exchanged.
pub open spec fn swap_next<T>(vs: Seq<T>, i: int) -> Seq<T> {
    vs.update(i, vs[i + 1]).update(i + 1, vs[i])
}

proof fn lemma_two_fractions_commute(p: int, q: int, a: int, b: int, c: int, d: int)
    ensures
        (p * b + a * q) * d + c * (q * b) == (p * d + c * q) * b + a * (q * d),
        (q * b) * d == (q * d) * b,
{
    assert((p * b + a * q) * d == p * b * d + a * q * d) by (nonlinear_arith);
    assert((p * d + c * q) * b == p * d * b + c * q * b) by (nonlinear_arith);
    assert(p * b * d == p * d * b) by (nonlinear_arith);
    assert(c * (q * b) == c * q * b) by (nonlinear_arith);
    assert(a * (q * d) == a * q * d) by (nonlinear_arith);
    assert((q * b) * d == (q * d) * b) by (nonlinear_arith);
}

proof fn lemma_fraction_sum_swap(vs: Seq<(int, int)>, i: int)
    requires
        0 <= i < vs.len() - 1,
    ensures
        fraction_sum(swap_next(vs, i)) == fraction_sum(vs),
    decreases vs.len(),
{
    let ws = swap_next(vs, i);
    if vs.len() == i + 2 {
        let base = vs.drop_last().drop_last();
        assert(ws.drop_last().drop_last() =~= base);
        assert(ws.drop_last().last() == vs.last());
        assert(ws.last() == vs.drop_last().last());
        assert(vs.drop_last().drop_last() =~= base);
        assert(vs.drop_last().last() == vs[i]);
        assert(ws.last() == vs[i]);
        assert(ws.drop_last().last() == vs[i + 1]);
        let s = fraction_sum(base);
        let x = vs[i];
        let y = vs[i + 1];
        lemma_two_fractions_commute(s.0, s.1, x.0, x.1, y.0, y.1);
        assert(fraction_sum(vs.drop_last()) == (s.0 * x.1 + x.0 * s.1, s.1 * x.1));
        assert(fraction_sum(ws.drop_last()) == (s.0 * y.1 + y.0 * s.1, s.1 * y.1));
    } else {
        assert(ws.drop_last() =~= swap_next(vs.drop_last(), i));
        assert(ws.last() == vs.last());
        lemma_fraction_sum_swap(vs.drop_last(), i);
    }
}

/// The aggregate average return does not depend on the order in which the
/// instruments were folded in: exchanging two neighbouring outcomes, and so
/// any number of such exchanges, leaves it unchanged.
pub proof fn lemma_average_return_order_free(rs: Seq<ResultView>, i: int)
    requires
        0 <= i < rs.len() - 1,
    ensures
        average_return(swap_next(rs, i)) == average_return(rs),
{
    assert(report_values(swap_next(rs, i)) =~= swap_next(report_values(rs), i));
    lemma_fraction_sum_swap(report_values(rs), i);
}

} // verus!
