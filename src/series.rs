//! The price store: for each instrument, its prices on the minute axis.
use vstd::prelude::*;
use std::collections::HashMap;
use crate::price::{Price, parse_price, is_price_text};
use crate::record::{
    FIELD_EXCHANGE, FIELD_POST_COIN, FIELD_PRE_COIN, FIELD_PRICE, FIELD_TIME, InstrumentKey,
    MIN_FIELDS, MinData, RecordError, generate_min_data, int_text_value, is_i64_text,
    minute_offset, split_fields, split_lines, split_on,
};

verus! {

broadcast use vstd::std_specs::hash::group_hash_axioms;

/// One instrument's prices by minute offset, with the offsets in the order
/// in which they were first seen.
pub struct PriceSeries {
    pub prices: HashMap<i64, Price>,
    pub offsets: Vec<i64>,
}

impl PriceSeries {
    /// Each offset listed once, the list and the map holding the same
    /// offsets, every price within the exact-comparison bounds.
    pub open spec fn wf(&self) -> bool {
        &&& self.offsets@.no_duplicates()
        &&& forall|t: i64| #[trigger] self.prices@.contains_key(t) <==> self.offsets@.contains(t)
        &&& forall|t: i64| #[trigger] self.prices@.contains_key(t) ==> self.prices@[t].wf()
    }

    pub fn new() -> (r: PriceSeries)
        ensures
            r.wf(),
            r.prices@ == Map::<i64, Price>::empty(),
            r.offsets@ == Seq::<i64>::empty(),
    {
        PriceSeries { prices: HashMap::new(), offsets: Vec::new() }
    }

    /// Sets the price at offset `t`; a later price for the same offset
    /// replaces the earlier one.
    pub fn insert(&mut self, t: i64, p: Price)
        requires
            old(self).wf(),
            p.wf(),
        ensures
            final(self).wf(),
            final(self).prices@ == old(self).prices@.insert(t, p),
            final(self).offsets@ == if old(self).prices@.contains_key(t) {
                old(self).offsets@
            } else {
                old(self).offsets@.push(t)
            },
    {
        let ghost old_offs = self.offsets@;
        if !self.prices.contains_key(&t) {
            self.offsets.push(t);
            proof {
                assert(!old_offs.contains(t));
                assert forall|u: i64| #[trigger] self.offsets@.contains(u) <==> (old_offs.contains(u)
                    || u == t) by {
                    if self.offsets@.contains(u) {
                        let j = choose|j: int| 0 <= j < self.offsets@.len() && self.offsets@[j] == u;
                        if j < old_offs.len() {
                            assert(old_offs[j] == u);
                        }
                    }
                    if old_offs.contains(u) {
                        let j = choose|j: int| 0 <= j < old_offs.len() && old_offs[j] == u;
                        assert(self.offsets@[j] == u);
                    }
                    if u == t {
                        assert(self.offsets@[old_offs.len() as int] == u);
                    }
                }
                assert forall|a: int, b: int|
                    0 <= a < self.offsets@.len() && 0 <= b < self.offsets@.len() && a != b
                        implies self.offsets@[a] != self.offsets@[b] by {
                    if a < old_offs.len() && b < old_offs.len() {
                    } else if a < old_offs.len() {
                        assert(old_offs.contains(self.offsets@[a]));
                    } else {
                        assert(old_offs.contains(self.offsets@[b]));
                    }
                }
            }
        }
        self.prices.insert(t, p);
    }

    /// The price at offset `t`, if there is one.
    pub fn get(&self, t: i64) -> (r: Option<Price>)
        ensures
            r == if self.prices@.contains_key(t) {
                Some(self.prices@[t])
            } else {
                None::<Price>
            },
    {
        match self.prices.get(&t) {
            Some(p) => Some(*p),
            None => None,
        }
    }

    /// Number of offsets that hold a price.
    pub fn len(&self) -> (r: usize)
        requires
            self.wf(),
        ensures
            r == self.offsets@.len(),
    {
        self.offsets.len()
    }
}

/// What identifies an instrument in contracts: its exchange, base and quote.
pub type KeyView = (Seq<char>, Seq<char>, Seq<char>);

/// Where the instrument `k` stands in `vs`, if it is there.
pub open spec fn key_index(vs: Seq<(KeyView, Map<i64, Price>)>, k: KeyView) -> Option<int> {
    if exists|i: int| 0 <= i < vs.len() && vs[i].0 == k {
        Some(choose|i: int| 0 <= i < vs.len() && vs[i].0 == k)
    } else {
        None
    }
}

/// The store `vs` after the price `p` of instrument `k` at offset `t` is
/// taken in: it replaces any earlier price there, and an instrument seen for
/// the first time is added at the end.
pub open spec fn store_insert(vs: Seq<(KeyView, Map<i64, Price>)>, k: KeyView, t: i64, p: Price) -> Seq<
    (KeyView, Map<i64, Price>),
> {
    match key_index(vs, k) {
        Some(j) => vs.update(j, (k, vs[j].1.insert(t, p))),
        None => vs.push((k, Map::<i64, Price>::empty().insert(t, p))),
    }
}

/// What a non-blank record line holds: its instrument, minute offset and
/// price, or why it is refused.
pub open spec fn record_of(line: Seq<char>) -> Result<(KeyView, i64, Price), RecordError> {
    let f = split_on(line, '\t');
    if f.len() < MIN_FIELDS {
        Err(RecordError::MissingFields)
    } else if !is_i64_text(f[FIELD_TIME as int]) {
        Err(RecordError::BadTimestamp)
    } else if !is_price_text(f[FIELD_PRICE as int]) {
        Err(RecordError::BadPrice)
    } else {
        Ok(
            (
                (f[FIELD_EXCHANGE as int], f[FIELD_PRE_COIN as int], f[FIELD_POST_COIN as int]),
                minute_offset(int_text_value(f[FIELD_TIME as int])) as i64,
                Price::of_text(f[FIELD_PRICE as int]),
            ),
        )
    }
}

/// The store `vs` after the lines are taken in, in order, blank lines
/// skipped; or the index of the first refused line and why.
pub open spec fn ingest(vs: Seq<(KeyView, Map<i64, Price>)>, lines: Seq<Seq<char>>) -> Result<
    Seq<(KeyView, Map<i64, Price>)>,
    (int, RecordError),
>
    decreases lines.len(),
{
    if lines.len() == 0 {
        Ok(vs)
    } else {
        match ingest(vs, lines.drop_last()) {
            Err(e) => Err(e),
            Ok(v) => if lines.last().len() == 0 {
                Ok(v)
            } else {
                match record_of(lines.last()) {
                    Err(e) => Err((lines.len() - 1, e)),
                    Ok((k, t, p)) => Ok(store_insert(v, k, t, p)),
                }
            },
        }
    }
}

proof fn lemma_ingest_error_stays(
    vs: Seq<(KeyView, Map<i64, Price>)>,
    lines: Seq<Seq<char>>,
    k: int,
)
    requires
        0 <= k <= lines.len(),
        ingest(vs, lines.take(k)) is Err,
    ensures
        ingest(vs, lines) == ingest(vs, lines.take(k)),
    decreases lines.len(),
{
    if k < lines.len() {
        assert(lines.drop_last().take(k) =~= lines.take(k));
        lemma_ingest_error_stays(vs, lines.drop_last(), k);
    } else {
        assert(lines.take(k) =~= lines);
    }
}

/// All instruments' price series, each instrument listed once.
pub struct PriceStore {
    pub keys: Vec<InstrumentKey>,
    pub series: Vec<PriceSeries>,
}

impl PriceStore {
    pub open spec fn wf(&self) -> bool {
        &&& self.keys@.len() == self.series@.len()
        &&& forall|i: int| 0 <= i < self.series@.len() ==> #[trigger] self.series@[i].wf()
        &&& forall|i: int, j: int|
            0 <= i < j < self.keys@.len() ==> #[trigger] self.keys@[i].view_parts()
                != #[trigger] self.keys@[j].view_parts()
    }

    /// Each instrument with its prices, in the order of first sight.
    pub open spec fn view_seq(&self) -> Seq<(KeyView, Map<i64, Price>)> {
        Seq::new(
            self.keys@.len(),
            |i: int| (self.keys@[i].view_parts(), self.series@[i].prices@),
        )
    }

    pub fn new() -> (r: PriceStore)
        ensures
            r.wf(),
            r.view_seq() == Seq::<(KeyView, Map<i64, Price>)>::empty(),
    {
        let r = PriceStore { keys: Vec::new(), series: Vec::new() };
        assert(r.view_seq() =~= Seq::<(KeyView, Map<i64, Price>)>::empty());
        r
    }

    /// Number of instruments.
    pub fn len(&self) -> (r: usize)
        requires
            self.wf(),
        ensures
            r == self.view_seq().len(),
    {
        self.keys.len()
    }

    /// Takes one record in: its price goes to its instrument's series at its
    /// minute offset, replacing an earlier price there; an instrument seen
    /// for the first time is added at the end. A price that is not accepted
    /// price text is refused and leaves the store as it was.
    pub fn add_record(&mut self, data: &MinData) -> (r: Result<(), RecordError>)
        requires
            old(self).wf(),
        ensures
            final(self).wf(),
            !is_price_text(data.price@) ==> r == Err::<(), RecordError>(RecordError::BadPrice)
                && final(self).view_seq() == old(self).view_seq(),
            is_price_text(data.price@) ==> r is Ok && final(self).view_seq() == store_insert(
                old(self).view_seq(),
                (data.exchange_id@, data.pre_coin@, data.post_coin@),
                data.time,
                Price::of_text(data.price@),
            ),
    {
        let p = match parse_price(data.price.as_str()) {
            Some(p) => p,
            None => {
                return Err(RecordError::BadPrice);
            },
        };
        let key = data.get_key();
        let ghost k = (data.exchange_id@, data.pre_coin@, data.post_coin@);
        let ghost old_seq = self.view_seq();
        let n = self.keys.len();
        let mut j: usize = 0;
        while j < n
            invariant
                *self == *old(self),
                old_seq == old(self).view_seq(),
                is_price_text(data.price@),
                p == Price::of_text(data.price@),
                p.wf(),
                n == self.keys@.len(),
                self.wf(),
                j <= n,
                key.view_parts() == k,
                k == (data.exchange_id@, data.pre_coin@, data.post_coin@),
                forall|i: int| 0 <= i < j ==> self.keys@[i].view_parts() != k,
            decreases n - j,
        {
            if self.keys[j].same(&key) {
                assert(key_index(old_seq, k) == Some(j as int)) by {
                    assert(old_seq[j as int].0 == k);
                    let c = choose|i: int| 0 <= i < old_seq.len() && old_seq[i].0 == k;
                    if c != j as int {
                        if c < j {
                            assert(self.keys@[c].view_parts() == k);
                        } else {
                            assert(self.keys@[j as int].view_parts() != self.keys@[c].view_parts());
                        }
                    }
                }
                self.series[j].insert(data.time, p);
                assert(self.view_seq() =~= old_seq.update(
                    j as int,
                    (k, old_seq[j as int].1.insert(data.time, p)),
                ));
                return Ok(());
            }
            j = j + 1;
        }
        assert(key_index(old_seq, k) is None) by {
            if exists|i: int| 0 <= i < old_seq.len() && old_seq[i].0 == k {
                let c = choose|i: int| 0 <= i < old_seq.len() && old_seq[i].0 == k;
                assert(self.keys@[c].view_parts() == k);
            }
        }
        let mut s = PriceSeries::new();
        s.insert(data.time, p);
        self.keys.push(key);
        self.series.push(s);
        assert(self.view_seq() =~= old_seq.push((k, Map::<i64, Price>::empty().insert(data.time, p))));
        Ok(())
    }

    /// Takes in every non-blank line of `text`, in order. The first line
    /// that is refused ends the work, with its index and why.
    pub fn add_text(&mut self, text: &str) -> (r: Result<(), (usize, RecordError)>)
        requires
            old(self).wf(),
        ensures
            final(self).wf(),
            match ingest(old(self).view_seq(), split_on(text@, '\n')) {
                Ok(vs) => r is Ok && final(self).view_seq() == vs,
                Err((n, e)) => r == Err::<(), (usize, RecordError)>((n as usize, e)),
            },
    {
        let lines = split_lines(text);
        let ghost ls = split_on(text@, '\n');
        let ghost start = old(self).view_seq();
        let mut i: usize = 0;
        assert(ls.take(0) =~= Seq::<Seq<char>>::empty());
        while i < lines.len()
            invariant
                self.wf(),
                start == old(self).view_seq(),
                ls == split_on(text@, '\n'),
                lines@.len() == ls.len(),
                forall|j: int| 0 <= j < lines@.len() ==> #[trigger] lines@[j]@ == ls[j],
                i <= lines@.len(),
                ingest(start, ls.take(i as int)) == Ok::<
                    Seq<(KeyView, Map<i64, Price>)>,
                    (int, RecordError),
                >(self.view_seq()),
            decreases lines@.len() - i,
        {
            let line = lines[i];
            let ghost next = ls.take(i + 1);
            assert(next.drop_last() =~= ls.take(i as int));
            assert(next.last() == line@);
            if !line.is_empty() {
                let fields = split_fields(line);
                match generate_min_data(&fields) {
                    Err(e) => {
                        proof {
                            lemma_ingest_error_stays(start, ls, i + 1);
                        }
                        return Err((i, e));
                    },
                    Ok(d) => {
                        match self.add_record(&d) {
                            Err(e) => {
                                proof {
                                    lemma_ingest_error_stays(start, ls, i + 1);
                                }
                                return Err((i, e));
                            },
                            Ok(()) => {},
                        }
                    },
                }
            }
            i = i + 1;
        }
        assert(ls.take(lines@.len() as int) =~= ls);
        Ok(())
    }
}

} // verus!
