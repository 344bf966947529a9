//! Exact decimal prices parsed from their text form.
use vstd::prelude::*;
use vstd::string::*;

verus! {

/// Most decimal digits a price may carry.
pub const MAX_DIGITS: u32 = 18;

pub open spec fn pow10(e: nat) -> nat
    decreases e,
{
    if e == 0 {
        1
    } else {
        10 * pow10((e - 1) as nat)
    }
}

pub open spec fn is_digit(c: char) -> bool {
    '0' <= c && c <= '9'
}

pub open spec fn digit_value(c: char) -> nat {
    (c as u32 - '0' as u32) as nat
}

/// Number of decimal digits in `s`.
pub open spec fn count_digits(s: Seq<char>) -> nat
    decreases s.len(),
{
    if s.len() == 0 {
        0
    } else {
        count_digits(s.drop_last()) + if is_digit(s.last()) { 1nat } else { 0nat }
    }
}

/// Number of `.` characters in `s`.
pub open spec fn count_dots(s: Seq<char>) -> nat
    decreases s.len(),
{
    if s.len() == 0 {
        0
    } else {
        count_dots(s.drop_last()) + if s.last() == '.' { 1nat } else { 0nat }
    }
}

/// The integer spelled by the digits of `s`, the decimal point left out.
pub open spec fn mantissa_of(s: Seq<char>) -> nat
    decreases s.len(),
{
    if s.len() == 0 {
        0
    } else if is_digit(s.last()) {
        mantissa_of(s.drop_last()) * 10 + digit_value(s.last())
    } else {
        mantissa_of(s.drop_last())
    }
}

/// Number of digits that follow the decimal point in `s`.
pub open spec fn scale_of(s: Seq<char>) -> nat
    decreases s.len(),
{
    if s.len() == 0 {
        0
    } else if is_digit(s.last()) && count_dots(s.drop_last()) > 0 {
        scale_of(s.drop_last()) + 1
    } else {
        scale_of(s.drop_last())
    }
}

/// Accepted price text: digits with at most one decimal point, holding
/// between one and `MAX_DIGITS` digits (`"1.02"`, `"7"`, `".5"`, `"3."`).
pub open spec fn is_price_text(s: Seq<char>) -> bool {
    &&& forall|i: int| 0 <= i < s.len() ==> is_digit(#[trigger] s[i]) || s[i] == '.'
    &&& count_dots(s) <= 1
    &&& 1 <= count_digits(s) <= MAX_DIGITS
}

/// A non-negative decimal number `mantissa / 10^scale`.
#[derive(Clone, Copy, Debug, PartialEq, Eq, Structural)]
pub struct Price {
    pub mantissa: u64,
    pub scale: u32,
}

impl Price {
    /// Both parts are small enough for exact comparisons in 128 bits.
    pub open spec fn wf(self) -> bool {
        &&& self.mantissa < pow10(MAX_DIGITS as nat)
        &&& self.scale <= MAX_DIGITS
    }

    /// The price brought to `s` decimal places: `mantissa * 10^s`.
    pub open spec fn scaled(self, s: nat) -> int {
        self.mantissa * pow10(s)
    }

    /// The price as the text of `s` gives it.
    pub open spec fn of_text(s: Seq<char>) -> Price {
        Price { mantissa: mantissa_of(s) as u64, scale: scale_of(s) as u32 }
    }
}

/// `a` is at least one percent above `b`, and above zero:
/// `a / b >= 1.01` as exact fractions, a zero `b` counting as an unbounded rise.
pub open spec fn rises_one_percent(b: Price, a: Price) -> bool {
    &&& a.mantissa > 0
    &&& 100 * a.scaled(b.scale as nat) >= 101 * b.scaled(a.scale as nat)
}

/// Selling at `sell` after buying at `buy` loses nothing: `sell >= buy`.
pub open spec fn no_loss(buy: Price, sell: Price) -> bool {
    sell.scaled(buy.scale as nat) >= buy.scaled(sell.scale as nat)
}

pub proof fn lemma_pow10_positive(e: nat)
    ensures
        pow10(e) >= 1,
    decreases e,
{
    if e > 0 {
        lemma_pow10_positive((e - 1) as nat);
    }
}

pub proof fn lemma_pow10_monotone(a: nat, b: nat)
    requires
        a <= b,
    ensures
        pow10(a) <= pow10(b),
    decreases b,
{
    if a < b {
        lemma_pow10_monotone(a, (b - 1) as nat);
    }
}

proof fn lemma_pow10_18()
    ensures
        pow10(18) == 1_000_000_000_000_000_000nat,
{
    reveal_with_fuel(pow10, 19);
}

proof fn lemma_counts_of_prefix(s: Seq<char>, k: int)
    requires
        0 <= k <= s.len(),
    ensures
        count_dots(s.take(k)) <= count_dots(s),
        count_digits(s.take(k)) <= count_digits(s),
    decreases s.len(),
{
    if k < s.len() {
        assert(s.take(k) =~= s.drop_last().take(k));
        lemma_counts_of_prefix(s.drop_last(), k);
    } else {
        assert(s.take(k) =~= s);
    }
}

proof fn lemma_mantissa_bound(s: Seq<char>)
    ensures
        mantissa_of(s) < pow10(count_digits(s)),
        scale_of(s) <= count_digits(s),
    decreases s.len(),
{
    if s.len() > 0 {
        lemma_mantissa_bound(s.drop_last());
        let m = mantissa_of(s.drop_last());
        let p = pow10(count_digits(s.drop_last()));
        if is_digit(s.last()) {
            assert(m * 10 + digit_value(s.last()) < p * 10) by (nonlinear_arith)
                requires
                    m < p,
                    digit_value(s.last()) < 10,
            ;
        }
    }
}

fn pow10_exec(e: u32) -> (r: u64)
    requires
        e <= MAX_DIGITS,
    ensures
        r == pow10(e as nat),
{
    proof {
        lemma_pow10_monotone(e as nat, 18);
        lemma_pow10_18();
    }
    let mut r: u64 = 1;
    let mut i: u32 = 0;
    while i < e
        invariant
            i <= e <= MAX_DIGITS,
            r == pow10(i as nat),
            pow10(e as nat) <= 1_000_000_000_000_000_000nat,
        decreases e - i,
    {
        proof {
            lemma_pow10_monotone((i + 1) as nat, e as nat);
        }
        r = r * 10;
        i = i + 1;
    }
    r
}

/// Parses the text of a price. Returns `None` exactly when the text is not
/// accepted price text.
pub fn parse_price(s: &str) -> (r: Option<Price>)
    ensures
        r is Some <==> is_price_text(s@),
        r matches Some(p) ==> p == Price::of_text(s@) && p.wf(),
{
    let n = s.unicode_len();
    let mut i: usize = 0;
    let mut dots: u32 = 0;
    let mut digits: u32 = 0;
    let mut mantissa: u64 = 0;
    let mut scale: u32 = 0;
    proof {
        lemma_pow10_18();
    }
    while i < n
        invariant
            n == s@.len(),
            i <= n,
            forall|j: int| 0 <= j < i ==> is_digit(#[trigger] s@[j]) || s@[j] == '.',
            dots == count_dots(s@.take(i as int)),
            digits == count_digits(s@.take(i as int)),
            dots <= 1,
            digits <= MAX_DIGITS,
            mantissa == mantissa_of(s@.take(i as int)),
            scale == scale_of(s@.take(i as int)),
            pow10(18) == 1_000_000_000_000_000_000nat,
        decreases n - i,
    {
        let c = s.get_char(i);
        let ghost pre = s@.take(i as int);
        let ghost next = s@.take(i + 1);
        assert(next.drop_last() =~= pre);
        assert(next.last() == c);
        proof {
            lemma_counts_of_prefix(s@, i + 1);
            lemma_mantissa_bound(pre);
            lemma_pow10_monotone(digits as nat, 18);
        }
        if c == '.' {
            if dots == 1 {
                return None;
            }
            dots = dots + 1;
        } else if '0' <= c && c <= '9' {
            if digits == MAX_DIGITS {
                return None;
            }
            let d = (c as u32 - '0' as u32) as u64;
            proof {
                lemma_pow10_monotone((digits + 1) as nat, 18);
                assert(pow10((digits + 1) as nat) == 10 * pow10(digits as nat));
            }
            assert(mantissa * 10 + d < 1_000_000_000_000_000_000) by (nonlinear_arith)
                requires
                    mantissa < pow10(digits as nat),
                    pow10(digits as nat) * 10 <= 1_000_000_000_000_000_000nat,
                    d < 10,
            {
            }
            mantissa = mantissa * 10 + d;
            if dots > 0 {
                scale = scale + 1;
            }
            digits = digits + 1;
        } else {
            assert(!(is_digit(s@[i as int]) || s@[i as int] == '.'));
            return None;
        }
        i = i + 1;
    }
    assert(s@.take(n as int) =~= s@);
    proof {
        lemma_mantissa_bound(s@);
        lemma_pow10_monotone(digits as nat, 18);
    }
    if digits == 0 {
        return None;
    }
    Some(Price { mantissa, scale })
}

/// `a` brought to `s` decimal places, in 128 bits.
fn scaled_exec(a: Price, s: u32) -> (r: u128)
    requires
        a.wf(),
        s <= MAX_DIGITS,
    ensures
        r == a.scaled(s as nat),
        r < 1_000_000_000_000_000_000_000_000_000_000_000_000u128,
{
    let p = pow10_exec(s);
    proof {
        lemma_pow10_18();
        lemma_pow10_monotone(s as nat, 18);
    }
    let m = a.mantissa as u128;
    assert(m * (p as u128) < 1_000_000_000_000_000_000_000_000_000_000_000_000) by (nonlinear_arith)
        requires
            m < 1_000_000_000_000_000_000u128,
            p <= 1_000_000_000_000_000_000u64,
    {
    }
    m * (p as u128)
}

/// Whether a move from `b` to `a` is a rise of at least one percent.
pub fn rises_one_percent_exec(b: Price, a: Price) -> (r: bool)
    requires
        b.wf(),
        a.wf(),
    ensures
        r == rises_one_percent(b, a),
{
    let x = scaled_exec(a, b.scale);
    let y = scaled_exec(b, a.scale);
    a.mantissa > 0 && 100 * x >= 101 * y
}

/// Whether selling at `sell` after buying at `buy` loses nothing.
pub fn no_loss_exec(buy: Price, sell: Price) -> (r: bool)
    requires
        buy.wf(),
        sell.wf(),
    ensures
        r == no_loss(buy, sell),
{
    scaled_exec(sell, buy.scale) >= scaled_exec(buy, sell.scale)
}

} // verus!
