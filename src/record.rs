//! Raw records: their fields, the minute axis and the instrument key.
use vstd::prelude::*;
use vstd::string::*;
use crate::config::{BASE_TIME, MILLIS_IN_MIN};
use crate::price::{is_digit, mantissa_of};

verus! {

/// Index of the exchange id among a record's fields.
pub const FIELD_EXCHANGE: usize = 2;

/// Index of the base coin.
pub const FIELD_PRE_COIN: usize = 3;

/// Index of the quote coin.
pub const FIELD_POST_COIN: usize = 4;

/// Index of the timestamp, in epoch milliseconds.
pub const FIELD_TIME: usize = 5;

/// Index of the price text.
pub const FIELD_PRICE: usize = 9;

/// Fewest fields a record may have.
pub const MIN_FIELDS: usize = 10;

/// Why a raw record could not be taken in.
#[derive(Clone, Copy, Debug, PartialEq, Eq, Structural)]
pub enum RecordError {
    /// Fewer than `MIN_FIELDS` fields.
    MissingFields,
    /// The timestamp field is not a 64-bit integer.
    BadTimestamp,
    /// The price field is not accepted price text.
    BadPrice,
}

/// The digits of integer text, after an optional sign.
pub open spec fn unsigned_part(s: Seq<char>) -> Seq<char> {
    if s.len() > 0 && (s[0] == '-' || s[0] == '+') {
        s.drop_first()
    } else {
        s
    }
}

/// The value of integer text with an optional leading sign.
pub open spec fn int_text_value(s: Seq<char>) -> int {
    if s.len() > 0 && s[0] == '-' {
        -mantissa_of(unsigned_part(s))
    } else {
        mantissa_of(unsigned_part(s)) as int
    }
}

/// Text that `i64`'s parser accepts: an optional `+` or `-`, then at least
/// one digit, naming a value in range.
pub open spec fn is_i64_text(s: Seq<char>) -> bool {
    let d = unsigned_part(s);
    &&& d.len() >= 1
    &&& forall|i: int| 0 <= i < d.len() ==> is_digit(#[trigger] d[i])
    &&& i64::MIN <= int_text_value(s) <= i64::MAX
}

/// Whole minutes from the epoch to `ms`, the division truncating toward zero.
pub open spec fn minute_offset(ms: int) -> int {
    let d = ms - BASE_TIME;
    if d >= 0 {
        d / (MILLIS_IN_MIN as int)
    } else {
        -((-d) / (MILLIS_IN_MIN as int))
    }
}

/// The instrument key text `exchange-base-quote`.
pub open spec fn id_text(e: Seq<char>, p: Seq<char>, q: Seq<char>) -> Seq<char> {
    e + seq!['-'] + p + seq!['-'] + q
}

proof fn lemma_mantissa_prefix(s: Seq<char>, k: int)
    requires
        0 <= k <= s.len(),
        forall|i: int| 0 <= i < s.len() ==> is_digit(#[trigger] s[i]),
    ensures
        mantissa_of(s.take(k)) <= mantissa_of(s),
    decreases s.len(),
{
    if k < s.len() {
        assert(s.take(k) =~= s.drop_last().take(k));
        lemma_mantissa_prefix(s.drop_last(), k);
    } else {
        assert(s.take(k) =~= s);
    }
}

/// Parses integer text as `i64` does: `None` exactly when it is not
/// accepted, else its value.
pub fn parse_i64(s: &str) -> (r: Option<i64>)
    ensures
        r is Some <==> is_i64_text(s@),
        r matches Some(v) ==> v == int_text_value(s@),
{
    let n = s.unicode_len();
    let mut start: usize = 0;
    let mut negative = false;
    if n > 0 {
        let c0 = s.get_char(0);
        if c0 == '-' {
            negative = true;
            start = 1;
        } else if c0 == '+' {
            start = 1;
        }
    }
    let ghost d = unsigned_part(s@);
    assert(d =~= s@.subrange(start as int, n as int));
    if start == n {
        return None;
    }
    let mut mag: u128 = 0;
    let mut i: usize = start;
    while i < n
        invariant
            n == s@.len(),
            start <= i <= n,
            d == s@.subrange(start as int, n as int),
            d == unsigned_part(s@),
            forall|j: int| 0 <= j < i - start ==> is_digit(#[trigger] d[j]),
            mag == mantissa_of(d.take(i - start)),
            mag <= 0x8000_0000_0000_0000u128,
        decreases n - i,
    {
        let c = s.get_char(i);
        let ghost k = i - start;
        assert(d.take(k + 1).drop_last() =~= d.take(k));
        assert(d[k] == c);
        if !('0' <= c && c <= '9') {
            assert(!is_digit(d[k as int]));
            return None;
        }
        mag = mag * 10 + (c as u32 - '0' as u32) as u128;
        if mag > 0x8000_0000_0000_0000u128 {
            proof {
                if is_i64_text(s@) {
                    lemma_mantissa_prefix(d, k + 1);
                }
            }
            return None;
        }
        i = i + 1;
    }
    assert(d.take(n - start) =~= d);
    if negative {
        Some((0 - mag as i128) as i64)
    } else if mag <= 0x7fff_ffff_ffff_ffff {
        Some(mag as i64)
    } else {
        None
    }
}

/// Minutes from the epoch to the timestamp `ms`, truncating toward zero.
pub fn minute_offset_exec(ms: i64) -> (r: i64)
    ensures
        r == minute_offset(ms as int),
{
    let d: i128 = ms as i128 - BASE_TIME as i128;
    if d >= 0 {
        (d / 60000) as i64
    } else {
        (0 - (0 - d) / 60000) as i64
    }
}

/// The three parts that name an instrument.
#[derive(Debug)]
pub struct InstrumentKey {
    pub exchange_id: String,
    pub pre_coin: String,
    pub post_coin: String,
}

impl InstrumentKey {
    pub open spec fn view_parts(&self) -> (Seq<char>, Seq<char>, Seq<char>) {
        (self.exchange_id@, self.pre_coin@, self.post_coin@)
    }

    /// The key text `exchange-base-quote`.
    pub fn id(&self) -> (r: String)
        ensures
            r@ == id_text(self.exchange_id@, self.pre_coin@, self.post_coin@),
    {
        let dash = "-";
        proof {
            reveal_strlit("-");
        }
        let r = self.exchange_id.clone().concat(dash).concat(self.pre_coin.as_str()).concat(
            dash,
        ).concat(self.post_coin.as_str());
        r
    }

    /// Whether two keys name the same instrument.
    pub fn same(&self, o: &InstrumentKey) -> (r: bool)
        ensures
            r == (self.view_parts() == o.view_parts()),
    {
        self.exchange_id == o.exchange_id && self.pre_coin == o.pre_coin && self.post_coin
            == o.post_coin
    }
}

/// One record's data: a price on the minute axis for one instrument.
#[derive(Debug)]
pub struct MinData {
    pub price: String,
    pub time: i64,
    pub exchange_id: String,
    pub pre_coin: String,
    pub post_coin: String,
}

impl MinData {
    pub fn new(
        price: String,
        time: i64,
        exchange_id: String,
        pre_coin: String,
        post_coin: String,
    ) -> (r: MinData)
        ensures
            r.price == price,
            r.time == time,
            r.exchange_id == exchange_id,
            r.pre_coin == pre_coin,
            r.post_coin == post_coin,
    {
        MinData { price, time, exchange_id, pre_coin, post_coin }
    }

    /// The instrument key text `exchange-base-quote`.
    pub fn get_id(&self) -> (r: String)
        ensures
            r@ == id_text(self.exchange_id@, self.pre_coin@, self.post_coin@),
    {
        self.get_key().id()
    }

    /// The instrument this record belongs to.
    pub fn get_key(&self) -> (r: InstrumentKey)
        ensures
            r.exchange_id@ == self.exchange_id@,
            r.pre_coin@ == self.pre_coin@,
            r.post_coin@ == self.post_coin@,
    {
        InstrumentKey {
            exchange_id: self.exchange_id.clone(),
            pre_coin: self.pre_coin.clone(),
            post_coin: self.post_coin.clone(),
        }
    }

    pub fn get_time(&self) -> (r: i64)
        ensures
            r == self.time,
    {
        self.time
    }

    pub fn get_price(&self) -> (r: String)
        ensures
            r@ == self.price@,
    {
        self.price.clone()
    }
}

/// Builds a record's data from its fields: the price text, the minute
/// offset of its timestamp, and the three parts of its instrument.
pub fn generate_min_data(line: &Vec<&str>) -> (r: Result<MinData, RecordError>)
    ensures
        line.len() < MIN_FIELDS ==> r == Err::<MinData, RecordError>(RecordError::MissingFields),
        line.len() >= MIN_FIELDS && !is_i64_text(line[FIELD_TIME as int]@) ==> r == Err::<
            MinData,
            RecordError,
        >(RecordError::BadTimestamp),
        line.len() >= MIN_FIELDS && is_i64_text(line[FIELD_TIME as int]@) ==> (r matches Ok(d) && {
            &&& d.price@ == line[FIELD_PRICE as int]@
            &&& d.time == minute_offset(int_text_value(line[FIELD_TIME as int]@))
            &&& d.exchange_id@ == line[FIELD_EXCHANGE as int]@
            &&& d.pre_coin@ == line[FIELD_PRE_COIN as int]@
            &&& d.post_coin@ == line[FIELD_POST_COIN as int]@
        }),
{
    if line.len() < MIN_FIELDS {
        return Err(RecordError::MissingFields);
    }
    let ms = match parse_i64(line[FIELD_TIME]) {
        Some(v) => v,
        None => {
            return Err(RecordError::BadTimestamp);
        },
    };
    Ok(
        MinData::new(
            String::from_str(line[FIELD_PRICE]),
            minute_offset_exec(ms),
            String::from_str(line[FIELD_EXCHANGE]),
            String::from_str(line[FIELD_PRE_COIN]),
            String::from_str(line[FIELD_POST_COIN]),
        ),
    )
}

/// The epoch is minute zero, and two timestamps on whole-minute
/// boundaries have the same minute offset only if they are equal.
pub proof fn lemma_minute_offset_injective(a: int, b: int)
    requires
        (a - BASE_TIME) % (MILLIS_IN_MIN as int) == 0,
        (b - BASE_TIME) % (MILLIS_IN_MIN as int) == 0,
    ensures
        minute_offset(BASE_TIME as int) == 0,
        minute_offset(a) == minute_offset(b) ==> a == b,
{
    let m = MILLIS_IN_MIN as int;
    let da = a - BASE_TIME;
    let db = b - BASE_TIME;
    assert(da == m * (da / m)) by (nonlinear_arith)
        requires
            da % m == 0,
            m > 0,
    {
    }
    assert(db == m * (db / m)) by (nonlinear_arith)
        requires
            db % m == 0,
            m > 0,
    {
    }
    if da < 0 {
        assert((-da) / m == -(da / m)) by (nonlinear_arith)
            requires
                da == m * (da / m),
                m > 0,
        {
        }
    }
    if db < 0 {
        assert((-db) / m == -(db / m)) by (nonlinear_arith)
            requires
                db == m * (db / m),
                m > 0,
        {
        }
    }
}

/// The pieces of `s` between occurrences of `sep`: an empty piece wherever
/// two separators meet or one starts or ends the text.
pub open spec fn split_on(s: Seq<char>, sep: char) -> Seq<Seq<char>>
    decreases s.len(),
{
    if s.len() == 0 {
        seq![Seq::empty()]
    } else {
        let f = split_on(s.drop_last(), sep);
        if s.last() == sep {
            f.push(Seq::empty())
        } else {
            f.update(f.len() - 1, f.last().push(s.last()))
        }
    }
}

proof fn lemma_split_nonempty(s: Seq<char>, sep: char)
    ensures
        split_on(s, sep).len() >= 1,
    decreases s.len(),
{
    if s.len() > 0 {
        lemma_split_nonempty(s.drop_last(), sep);
    }
}

fn char_at(line: &str, i: usize, ascii: bool) -> (c: char)
    requires
        i < line@.len(),
        ascii == line.is_ascii(),
    ensures
        c == line@[i as int],
{
    if ascii {
        let b = line.get_ascii(i);
        proof {
            vstd::string::is_ascii_spec_bytes(line);
            assert(line@[i as int] == line@[i as int] as u8 as char) by {
                assert(vstd::string::is_ascii(line));
            }
        }
        b as char
    } else {
        line.get_char(i)
    }
}

fn piece<'a>(line: &'a str, from: usize, to: usize, ascii: bool) -> (r: &'a str)
    requires
        from <= to <= line@.len(),
        ascii == line.is_ascii(),
    ensures
        r@ == line@.subrange(from as int, to as int),
{
    if ascii {
        line.substring_ascii(from, to)
    } else {
        line.substring_char(from, to)
    }
}

/// Splits `line` at every `sep`.
pub fn split_on_char<'a>(line: &'a str, sep: char) -> (r: Vec<&'a str>)
    ensures
        r@.len() == split_on(line@, sep).len(),
        forall|i: int| 0 <= i < r@.len() ==> #[trigger] r@[i]@ == split_on(line@, sep)[i],
{
    let ascii = line.is_ascii();
    let n = line.unicode_len();
    let mut fields: Vec<&'a str> = Vec::new();
    let mut start: usize = 0;
    let mut i: usize = 0;
    while i < n
        invariant
            n == line@.len(),
            ascii == line.is_ascii(),
            start <= i <= n,
            fields@.len() + 1 == split_on(line@.take(i as int), sep).len(),
            forall|j: int| 0 <= j < fields@.len() ==> #[trigger] fields@[j]@ == split_on(
                line@.take(i as int),
                sep,
            )[j],
            split_on(line@.take(i as int), sep).last() == line@.subrange(start as int, i as int),
        decreases n - i,
    {
        let c = char_at(line, i, ascii);
        let ghost pre = line@.take(i as int);
        let ghost next = line@.take(i + 1);
        assert(next.drop_last() =~= pre);
        assert(next.last() == c);
        proof {
            lemma_split_nonempty(pre, sep);
        }
        if c == sep {
            let f = piece(line, start, i, ascii);
            fields.push(f);
            start = i + 1;
            assert(line@.subrange(start as int, i + 1) =~= Seq::<char>::empty());
        } else {
            assert(line@.subrange(start as int, i + 1) =~= line@.subrange(start as int, i as int).push(c));
        }
        i = i + 1;
    }
    assert(line@.take(n as int) =~= line@);
    let f = piece(line, start, n, ascii);
    fields.push(f);
    fields
}

/// Splits a record line into its tab-separated fields.
pub fn split_fields<'a>(line: &'a str) -> (r: Vec<&'a str>)
    ensures
        r@.len() == split_on(line@, '\t').len(),
        forall|i: int| 0 <= i < r@.len() ==> #[trigger] r@[i]@ == split_on(line@, '\t')[i],
{
    split_on_char(line, '\t')
}

/// Splits text into its lines.
pub fn split_lines<'a>(text: &'a str) -> (r: Vec<&'a str>)
    ensures
        r@.len() == split_on(text@, '\n').len(),
        forall|i: int| 0 <= i < r@.len() ==> #[trigger] r@[i]@ == split_on(text@, '\n')[i],
{
    split_on_char(text, '\n')
}

} // verus!
