//! Rate specifications: "N events per unit of time", and their textual form
//! `<N>/ms`, `<N>/s`, `<N>/min`, `<N>/h`, `<N>/day` or a bare `<N>` (per second).

use vstd::prelude::*;
use vstd::string::StringSliceAdditionalSpecFns;

verus! {

/// A rate: a quota of events allowed in one window, tagged by the length of
/// that window.
#[derive(PartialEq, Eq, Structural, Clone, Copy, Debug)]
pub enum Rate {
    Millis(u128),
    Second(u128),
    Minute(u128),
    Hour(u128),
    Day(u128),
}

pub const MILLIS_PER_SECOND: u128 = 1000;

pub const MILLIS_PER_MINUTE: u128 = 60000;

pub const MILLIS_PER_HOUR: u128 = 3600000;

pub const MILLIS_PER_DAY: u128 = 86400000;

impl Rate {
    /// The number of events admitted per window.
    pub open spec fn quota(self) -> u128 {
        match self {
            Rate::Millis(r) => r,
            Rate::Second(r) => r,
            Rate::Minute(r) => r,
            Rate::Hour(r) => r,
            Rate::Day(r) => r,
        }
    }

    /// The length of one window in milliseconds: the rate's unit of time.
    pub open spec fn window_ms(self) -> u128 {
        match self {
            Rate::Millis(_) => 1,
            Rate::Second(_) => MILLIS_PER_SECOND,
            Rate::Minute(_) => MILLIS_PER_MINUTE,
            Rate::Hour(_) => MILLIS_PER_HOUR,
            Rate::Day(_) => MILLIS_PER_DAY,
        }
    }

    /// Length of the rate's window, in milliseconds.
    pub fn to_millis(&self) -> (r: u128)
        ensures
            r == self.window_ms(),
            r > 0,
    {
        match self {
            Rate::Millis(_) => 1,
            Rate::Second(_) => MILLIS_PER_SECOND,
            Rate::Minute(_) => MILLIS_PER_MINUTE,
            Rate::Hour(_) => MILLIS_PER_HOUR,
            Rate::Day(_) => MILLIS_PER_DAY,
        }
    }

    /// Number of events admitted per window.
    pub fn value(&self) -> (r: u128)
        ensures
            r == self.quota(),
    {
        match self {
            Rate::Millis(r) => *r,
            Rate::Second(r) => *r,
            Rate::Minute(r) => *r,
            Rate::Hour(r) => *r,
            Rate::Day(r) => *r,
        }
    }
}

pub open spec fn is_digit(c: u8) -> bool {
    48 <= c <= 57
}

pub open spec fn all_digits(s: Seq<u8>) -> bool {
    forall|i: int| 0 <= i < s.len() ==> is_digit(#[trigger] s[i])
}

/// The number written by a sequence of decimal digits, most significant first.
pub open spec fn digits_value(s: Seq<u8>) -> nat
    decreases s.len(),
{
    if s.len() == 0 {
        0
    } else {
        digits_value(s.drop_last()) * 10 + (s.last() - 48) as nat
    }
}

/// The digits of a number text, after an optional leading `+`.
pub open spec fn unsigned_part(s: Seq<u8>) -> Seq<u8> {
    if s.len() > 0 && s[0] == 43 {
        s.drop_first()
    } else {
        s
    }
}

/// The value of a decimal number text: an optional `+` and one or more digits
/// whose value fits in a `u128`.
pub open spec fn number_of(s: Seq<u8>) -> Option<u128> {
    let d = unsigned_part(s);
    if d.len() > 0 && all_digits(d) && digits_value(d) <= u128::MAX {
        Some(digits_value(d) as u128)
    } else {
        None
    }
}

pub open spec fn has_suffix(s: Seq<u8>, suf: Seq<u8>) -> bool {
    suf.len() <= s.len() && s.subrange(s.len() - suf.len(), s.len() as int) == suf
}

/// `s` without its last `k` bytes.
pub open spec fn strip(s: Seq<u8>, k: nat) -> Seq<u8> {
    s.subrange(0, s.len() - k)
}

pub open spec fn suffix_ms() -> Seq<u8> {
    seq![47u8, 109u8, 115u8]
}

pub open spec fn suffix_s() -> Seq<u8> {
    seq![47u8, 115u8]
}

pub open spec fn suffix_min() -> Seq<u8> {
    seq![47u8, 109u8, 105u8, 110u8]
}

pub open spec fn suffix_h() -> Seq<u8> {
    seq![47u8, 104u8]
}

pub open spec fn suffix_day() -> Seq<u8> {
    seq![47u8, 100u8, 97u8, 121u8]
}

/// The rate that the text `s` (as UTF-8 bytes) denotes, if any.
pub open spec fn rate_of(s: Seq<u8>) -> Option<Rate> {
    if has_suffix(s, suffix_ms()) {
        match number_of(strip(s, 3)) {
            Some(n) => Some(Rate::Millis(n)),
            None => None,
        }
    } else if has_suffix(s, suffix_s()) {
        match number_of(strip(s, 2)) {
            Some(n) => Some(Rate::Second(n)),
            None => None,
        }
    } else if has_suffix(s, suffix_min()) {
        match number_of(strip(s, 4)) {
            Some(n) => Some(Rate::Minute(n)),
            None => None,
        }
    } else if has_suffix(s, suffix_h()) {
        match number_of(strip(s, 2)) {
            Some(n) => Some(Rate::Hour(n)),
            None => None,
        }
    } else if has_suffix(s, suffix_day()) {
        match number_of(strip(s, 4)) {
            Some(n) => Some(Rate::Day(n)),
            None => None,
        }
    } else {
        match number_of(s) {
            Some(n) => Some(Rate::Second(n)),
            None => None,
        }
    }
}

/// A longer digit sequence never denotes a smaller number than its prefix.
proof fn lemma_prefix_value(s: Seq<u8>, k: int)
    requires
        all_digits(s),
        0 <= k <= s.len(),
    ensures
        digits_value(s.subrange(0, k)) <= digits_value(s),
    decreases s.len(),
{
    if k < s.len() {
        let t = s.drop_last();
        assert(t.subrange(0, k) =~= s.subrange(0, k));
        lemma_prefix_value(t, k);
    } else {
        assert(s.subrange(0, k) =~= s);
    }
}

fn ends_with(b: &[u8], suf: &Vec<u8>) -> (r: bool)
    ensures
        r == has_suffix(b@, suf@),
{
    let n = b.len();
    let m = suf.len();
    if m > n {
        return false;
    }
    let mut j: usize = 0;
    while j < m
        invariant
            m <= n,
            n == b@.len(),
            m == suf@.len(),
            j <= m,
            forall|k: int| 0 <= k < j ==> b@[n - m + k] == suf@[k],
        decreases m - j,
    {
        if b[n - m + j] != suf[j] {
            assert(b@.subrange(n - m, n as int)[j as int] != suf@[j as int]);
            return false;
        }
        j += 1;
    }
    assert(b@.subrange(n - m, n as int) =~= suf@);
    true
}

/// Reads the number written in `b[..end]`.
fn parse_number(b: &[u8], end: usize) -> (r: Option<u128>)
    requires
        end <= b@.len(),
    ensures
        r == number_of(b@.subrange(0, end as int)),
{
    let ghost s = b@.subrange(0, end as int);
    let mut i: usize = 0;
    if end > 0 && b[0] == 43 {
        i = 1;
    }
    let start = i;
    let ghost d = unsigned_part(s);
    assert(d =~= b@.subrange(start as int, end as int));
    if start == end {
        return None;
    }
    let mut v: u128 = 0;
    while i < end
        invariant
            start <= i <= end,
            end <= b@.len(),
            d == b@.subrange(start as int, end as int),
            d == unsigned_part(b@.subrange(0, end as int)),
            all_digits(b@.subrange(start as int, i as int)),
            v == digits_value(b@.subrange(start as int, i as int)),
        decreases end - i,
    {
        let c = b[i];
        if c < 48 || c > 57 {
            assert(d[i - start] == c);
            return None;
        }
        let dv = (c - 48) as u128;
        let ghost next = b@.subrange(start as int, i + 1);
        assert(next.drop_last() =~= b@.subrange(start as int, i as int));
        assert(all_digits(next));
        if v > (u128::MAX - dv) / 10 {
            proof {
                assert(v * 10 + dv > u128::MAX) by (nonlinear_arith)
                    requires
                        v > (u128::MAX - dv) / 10,
                        dv <= 9,
                ;
                if all_digits(d) {
                    assert(d.subrange(0, i + 1 - start) =~= next);
                    lemma_prefix_value(d, i + 1 - start);
                }
            }
            return None;
        }
        assert(v * 10 + dv <= u128::MAX) by (nonlinear_arith)
            requires
                v <= (u128::MAX - dv) / 10,
                dv <= 9,
        ;
        v = v * 10 + dv;
        i += 1;
    }
    assert(b@.subrange(start as int, i as int) =~= d);
    Some(v)
}

/// Reads a rate from its text: `<N>/ms`, `<N>/s`, `<N>/min`, `<N>/h`,
/// `<N>/day`, or a bare `<N>`, which counts per second. `N` is a decimal
/// number that fits in a `u128`; any other text gives `None`.
pub fn parse_rate(s: &str) -> (r: Option<Rate>)
    ensures
        r == rate_of(s.spec_bytes()),
{
    let b = s.as_bytes();
    let n = b.len();
    if ends_with(b, &vec![47u8, 109u8, 115u8]) {
        match parse_number(b, n - 3) {
            Some(q) => Some(Rate::Millis(q)),
            None => None,
        }
    } else if ends_with(b, &vec![47u8, 115u8]) {
        match parse_number(b, n - 2) {
            Some(q) => Some(Rate::Second(q)),
            None => None,
        }
    } else if ends_with(b, &vec![47u8, 109u8, 105u8, 110u8]) {
        match parse_number(b, n - 4) {
            Some(q) => Some(Rate::Minute(q)),
            None => None,
        }
    } else if ends_with(b, &vec![47u8, 104u8]) {
        match parse_number(b, n - 2) {
            Some(q) => Some(Rate::Hour(q)),
            None => None,
        }
    } else if ends_with(b, &vec![47u8, 100u8, 97u8, 121u8]) {
        match parse_number(b, n - 4) {
            Some(q) => Some(Rate::Day(q)),
            None => None,
        }
    } else {
        let r = parse_number(b, n);
        assert(b@.subrange(0, n as int) =~= b@);
        match r {
            Some(q) => Some(Rate::Second(q)),
            None => None,
        }
    }
}

/// The decimal writing of `n`, most significant digit first, no sign.
pub open spec fn decimal(n: nat) -> Seq<u8>
    decreases n,
{
    if n < 10 {
        seq![(48 + n) as u8]
    } else {
        decimal(n / 10).push((48 + n % 10) as u8)
    }
}

proof fn lemma_decimal(n: nat)
    ensures
        decimal(n).len() > 0,
        all_digits(decimal(n)),
        digits_value(decimal(n)) == n,
    decreases n,
{
    let d = decimal(n);
    if n >= 10 {
        lemma_decimal(n / 10);
        assert(d.drop_last() =~= decimal(n / 10));
        assert(d.last() == (48 + n % 10) as u8);
        vstd::arithmetic::div_mod::lemma_fundamental_div_mod(n as int, 10);
        assert((d.last() - 48) as nat == n % 10);
        assert(digits_value(d) == digits_value(decimal(n / 10)) * 10 + n % 10);
        assert forall|i: int| 0 <= i < d.len() implies is_digit(#[trigger] d[i]) by {
            if i < d.len() - 1 {
                assert(d[i] == decimal(n / 10)[i]);
            }
        }
    } else {
        assert(d.drop_last() =~= Seq::<u8>::empty());
        assert(d.last() == (48 + n) as u8);
        assert((d.last() - 48) as nat == n);
        assert(digits_value(d) == digits_value(d.drop_last()) * 10 + n);
    }
}

/// A number written in decimal and followed by a unit's suffix reads back as
/// that number of events per that unit; with no suffix, per second.
pub proof fn lemma_parse_round_trip(n: u128)
    ensures
        rate_of(decimal(n as nat) + suffix_ms()) == Some(Rate::Millis(n)),
        rate_of(decimal(n as nat) + suffix_s()) == Some(Rate::Second(n)),
        rate_of(decimal(n as nat) + suffix_min()) == Some(Rate::Minute(n)),
        rate_of(decimal(n as nat) + suffix_h()) == Some(Rate::Hour(n)),
        rate_of(decimal(n as nat) + suffix_day()) == Some(Rate::Day(n)),
        rate_of(decimal(n as nat)) == Some(Rate::Second(n)),
{
    let d = decimal(n as nat);
    lemma_decimal(n as nat);
    assert(unsigned_part(d) == d);
    assert(number_of(d) == Some(n));
    let l = d.len() as int;

    let s = d + suffix_ms();
    assert(s.subrange(l, s.len() as int) =~= suffix_ms());
    assert(strip(s, 3) =~= d);

    let s = d + suffix_s();
    assert(s.subrange(l, s.len() as int) =~= suffix_s());
    assert(s.subrange(s.len() - 3, s.len() as int)[1] == 47);
    assert(strip(s, 2) =~= d);

    let s = d + suffix_min();
    assert(s.subrange(l, s.len() as int) =~= suffix_min());
    assert(s.subrange(s.len() - 3, s.len() as int)[0] == 109);
    assert(s.subrange(s.len() - 2, s.len() as int)[1] == 110);
    assert(strip(s, 4) =~= d);

    let s = d + suffix_h();
    assert(s.subrange(l, s.len() as int) =~= suffix_h());
    assert(s.subrange(s.len() - 3, s.len() as int)[2] == 104);
    assert(s.subrange(s.len() - 2, s.len() as int)[1] == 104);
    assert(strip(s, 2) =~= d);

    let s = d + suffix_day();
    assert(s.subrange(l, s.len() as int) =~= suffix_day());
    assert(s.subrange(s.len() - 3, s.len() as int)[2] == 121);
    assert(s.subrange(s.len() - 2, s.len() as int)[1] == 121);
    assert(s.subrange(s.len() - 4, s.len() as int)[1] == 100);
    assert(strip(s, 4) =~= d);

    assert(is_digit(d[l - 1]));
    if d.len() >= 2 {
        assert(d.subrange(l - 2, l)[1] == d[l - 1]);
    }
    if d.len() >= 3 {
        assert(d.subrange(l - 3, l)[2] == d[l - 1]);
    }
    if d.len() >= 4 {
        assert(d.subrange(l - 4, l)[3] == d[l - 1]);
    }
}

} // verus!
