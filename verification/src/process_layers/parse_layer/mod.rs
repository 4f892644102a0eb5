pub mod ordered_event;

use vstd::prelude::*;
use std::rc::Rc;
use crate::input_event::InputEvent;
use ordered_event::OrderedEvent;

verus! {

broadcast use vstd::seq_lib::group_seq_properties, vstd::multiset::group_multiset_axioms;

/// `c` is a decimal digit.
pub open spec fn is_digit(c: char) -> bool {
    '0' <= c <= '9'
}

/// The value of the decimal digit `c`.
pub open spec fn digit_value(c: char) -> int {
    c as int - '0' as int
}

/// The value of a sequence of decimal digits, most significant first.
pub open spec fn digits_value(s: Seq<char>) -> int
    decreases s.len(),
{
    if s.len() == 0 {
        0
    } else {
        digits_value(s.drop_last()) * 10 + digit_value(s.last())
    }
}

/// The number of decimal digits at the start of `s`.
pub open spec fn lead_digits(s: Seq<char>) -> int
    decreases s.len(),
{
    if s.len() == 0 || !is_digit(s[0]) {
        0
    } else {
        1 + lead_digits(s.drop_first())
    }
}

/// The (up to) three characters after the integer part and its `'.'`, padded with `'0'`.
pub open spec fn millis_chars(s: Seq<char>) -> Seq<char> {
    let p = lead_digits(s);
    let frac = if p < s.len() { s.skip(p + 1) } else { Seq::empty() };
    let taken = if frac.len() >= 3 { frac.take(3) } else { frac };
    taken + Seq::new((3 - taken.len()) as nat, |i: int| '0')
}

/// `10` to the power `k`, for `k <= 3`.
pub open spec fn pow10(k: int) -> int {
    if k <= 0 {
        1
    } else if k == 1 {
        10
    } else if k == 2 {
        100
    } else {
        1000
    }
}

/// A timestamp in seconds with a decimal fraction, as milliseconds: the integer part times
/// 1000 plus the first three digits of the fraction, missing digits taken as `0` and further
/// ones ignored. `None` when the integer part holds a character other than a digit, or one of
/// the three fraction digits is not a digit.
pub open spec fn timestamp_of(s: Seq<char>) -> Option<int> {
    let p = lead_digits(s);
    let m = millis_chars(s);
    if (p < s.len() && s[p] != '.') || lead_digits(m) < 3 {
        None
    } else {
        Some(digits_value(s.take(p)) * 1000 + digits_value(m))
    }
}

/// The accumulated value never leaves `u64` while the timestamp is read.
pub open spec fn timestamp_fits(s: Seq<char>) -> bool {
    let p = lead_digits(s);
    let int_value = digits_value(s.take(p));
    let m = millis_chars(s);
    let q = lead_digits(m);
    if p < s.len() && s[p] != '.' {
        int_value * 10 <= u64::MAX
    } else {
        int_value * pow10(q) + digits_value(m.take(q)) <= u64::MAX
    }
}

proof fn lemma_lead_digits(s: Seq<char>)
    ensures
        0 <= lead_digits(s) <= s.len(),
        forall|i: int| 0 <= i < lead_digits(s) ==> is_digit(#[trigger] s[i]),
        lead_digits(s) < s.len() ==> !is_digit(s[lead_digits(s)]),
    decreases s.len(),
{
    if s.len() > 0 && is_digit(s[0]) {
        lemma_lead_digits(s.drop_first());
        assert forall|i: int| 0 <= i < lead_digits(s) implies is_digit(#[trigger] s[i]) by {
            if i > 0 {
                assert(s[i] == s.drop_first()[i - 1]);
            }
        }
    }
}

proof fn lemma_lead_digits_exact(s: Seq<char>, p: int)
    requires
        0 <= p <= s.len(),
        forall|i: int| 0 <= i < p ==> is_digit(#[trigger] s[i]),
        p < s.len() ==> !is_digit(s[p]),
    ensures
        lead_digits(s) == p,
    decreases s.len(),
{
    if p > 0 {
        assert forall|i: int| 0 <= i < p - 1 implies is_digit(#[trigger] s.drop_first()[i]) by {
            assert(s.drop_first()[i] == s[i + 1]);
        }
        if p < s.len() {
            assert(s.drop_first()[p - 1] == s[p]);
        }
        lemma_lead_digits_exact(s.drop_first(), p - 1);
    }
}

proof fn lemma_digits_monotone(s: Seq<char>, k: int)
    requires
        0 <= k <= s.len(),
        forall|i: int| 0 <= i < s.len() ==> is_digit(#[trigger] s[i]),
    ensures
        0 <= digits_value(s.take(k)) <= digits_value(s),
    decreases s.len(),
{
    if s.len() > 0 {
        if k < s.len() {
            assert(s.drop_last().take(k) =~= s.take(k));
            lemma_digits_monotone(s.drop_last(), k);
        } else {
            assert(s.take(k) =~= s);
            lemma_digits_monotone(s.drop_last(), k - 1);
        }
        assert(digit_value(s.last()) >= 0);
    }
}

/// Converts a decimal digit character to its value.
fn to_digit(c: char) -> (res: Option<u64>)
    ensures
        res is Some <==> is_digit(c),
        res matches Some(d) ==> d == digit_value(c) && d < 10,
{
    if '0' <= c && c <= '9' {
        Some((c as u32 - '0' as u32) as u64)
    } else {
        None
    }
}

/// `10` to the power `n`.
pub open spec fn ten_pow(n: nat) -> int
    decreases n,
{
    if n == 0 {
        1
    } else {
        10 * ten_pow((n - 1) as nat)
    }
}

proof fn lemma_digits_below(t: Seq<char>)
    requires
        forall|i: int| 0 <= i < t.len() ==> is_digit(#[trigger] t[i]),
    ensures
        0 <= digits_value(t) < ten_pow(t.len()),
    decreases t.len(),
{
    if t.len() > 0 {
        lemma_digits_below(t.drop_last());
        assert(is_digit(t[t.len() - 1]));
    }
}

proof fn lemma_ten_pow_monotone(a: nat, b: nat)
    requires
        a <= b,
    ensures
        1 <= ten_pow(a) <= ten_pow(b),
    decreases b,
{
    if b > a {
        lemma_ten_pow_monotone(a, (b - 1) as nat);
    } else if a > 0 {
        lemma_ten_pow_monotone((a - 1) as nat, (a - 1) as nat);
    }
}

/// Whether reading the timestamp stays within `u64` ([timestamp_fits]).
pub fn timestamp_in_range(input: &str) -> (res: bool)
    ensures
        res == timestamp_fits(input@),
{
    let ghost s = input@;
    let n = input.unicode_len();
    proof {
        lemma_lead_digits(s);
    }
    let ghost p = lead_digits(s);
    let mut value: u64 = 0;
    let mut i: usize = 0;
    while i < n
        invariant
            n == s.len(),
            s == input@,
            p == lead_digits(s),
            0 <= p <= s.len(),
            forall|k: int| 0 <= k < p ==> is_digit(#[trigger] s[k]),
            p < s.len() ==> !is_digit(s[p]),
            i <= p,
            value == digits_value(s.take(i as int)),
        ensures
            i == p,
            value == digits_value(s.take(i as int)),
        decreases n - i,
    {
        let d = match to_digit(input.get_char(i)) {
            Some(d) => d,
            None => {
                assert(i == p) by {
                    if i < p {
                        assert(is_digit(s[i as int]));
                    }
                }
                break;
            },
        };
        proof {
            assert(i < p) by {
                if i == p {
                    assert(!is_digit(s[p]));
                }
            }
            assert(s.take(i + 1).drop_last() =~= s.take(i as int));
        }
        if value > (u64::MAX - d) / 10 {
            proof {
                let t = s.take(p);
                assert forall|k: int| 0 <= k < t.len() implies is_digit(#[trigger] t[k]) by {
                    assert(t[k] == s[k]);
                }
                lemma_digits_monotone(t, i + 1);
                assert(t.take(i + 1) =~= s.take(i + 1));
                assert(digits_value(t) > u64::MAX);
                let m = millis_chars(s);
                lemma_lead_digits(m);
                let q = lead_digits(m);
                let mt = m.take(q);
                assert forall|k: int| 0 <= k < mt.len() implies is_digit(#[trigger] mt[k]) by {
                    assert(mt[k] == m[k]);
                }
                lemma_digits_monotone(mt, 0);
                assert(pow10(q) >= 1);
                let iv = digits_value(t);
                assert(iv * pow10(q) >= iv) by (nonlinear_arith)
                    requires pow10(q) >= 1, iv >= 0;
            }
            return false;
        }
        value = value * 10 + d;
        i += 1;
    }
    if i < n && input.get_char(i) != '.' {
        return value <= u64::MAX / 10;
    }
    let ghost m = millis_chars(s);
    proof {
        lemma_lead_digits(m);
    }
    let mut frac: u64 = 0;
    let mut q: usize = 0;
    while q < 3
        invariant
            n == s.len(),
            s == input@,
            p == lead_digits(s),
            i == p,
            0 <= p <= s.len(),
            p < s.len() ==> s[p] == '.',
            m == millis_chars(s),
            m.len() == 3,
            q <= 3,
            forall|k: int| 0 <= k < q ==> is_digit(#[trigger] m[k]),
            frac == digits_value(m.take(q as int)),
            frac < 1000,
        ensures
            q <= 3,
            forall|k: int| 0 <= k < q ==> is_digit(#[trigger] m[k]),
            q < 3 ==> !is_digit(m[q as int]),
            frac == digits_value(m.take(q as int)),
        decreases 3 - q,
    {
        let ghost frac_len = if p < s.len() { s.len() - p - 1 } else { 0 };
        assert(m[q as int] == if (q as int) < frac_len { s[p + 1 + q] } else { '0' });
        let c = if i < n && q < n - i - 1 { input.get_char(i + 1 + q) } else { '0' };
        let d = match to_digit(c) {
            Some(d) => d,
            None => {
                break;
            },
        };
        proof {
            assert(m.take(q + 1).drop_last() =~= m.take(q as int));
            lemma_digits_below(m.take(q + 1));
            assert(ten_pow(3) == 1000) by {
                reveal_with_fuel(ten_pow, 4);
            }
            lemma_ten_pow_monotone((q + 1) as nat, 3);
        }
        frac = frac * 10 + d;
        q += 1;
    }
    proof {
        lemma_lead_digits_exact(m, q as int);
    }
    let scale: u64 = if q == 0 { 1 } else if q == 1 { 10 } else if q == 2 { 100 } else { 1000 };
    assert(scale == pow10(q as int));
    value as u128 * scale as u128 + frac as u128 <= u64::MAX as u128
}

/// Parses a timestamp in seconds with a decimal fraction into milliseconds.
pub fn parse_timestamp(input: &str) -> (res: Option<u64>)
    requires
        timestamp_fits(input@),
    ensures
        match timestamp_of(input@) {
            Some(v) => res is Some && res->0 == v,
            None => res is None,
        },
{
    let ghost s = input@;
    let n = input.unicode_len();
    proof {
        lemma_lead_digits(s);
    }
    let ghost p = lead_digits(s);
    let mut result: u64 = 0;
    let mut i: usize = 0;
    while i < n
        invariant
            n == s.len(),
            s == input@,
            p == lead_digits(s),
            0 <= p <= s.len(),
            forall|k: int| 0 <= k < p ==> is_digit(#[trigger] s[k]),
            p < s.len() ==> !is_digit(s[p]),
            i <= p,
            result == digits_value(s.take(i as int)),
            timestamp_fits(s),
        ensures
            i == p,
            p < s.len() ==> s[p] == '.',
            result == digits_value(s.take(i as int)),
        decreases n - i,
    {
        let c = input.get_char(i);
        if c == '.' {
            assert(i == p) by {
                if i < p {
                    assert(is_digit(s[i as int]));
                }
            }
            break;
        }
        let d = match to_digit(c) {
            Some(d) => d,
            None => {
                assert(i == p);
                return None;
            },
        };
        proof {
            assert(i < p) by {
                if i == p {
                    assert(!is_digit(s[p]));
                }
            }
            assert(s.take(i + 1).drop_last() =~= s.take(i as int));
            lemma_digits_monotone(s.take(p), i + 1);
            assert(s.take(p).take(i + 1) =~= s.take(i + 1));
            assert(digits_value(s.take(p)) <= u64::MAX) by {
                let m = millis_chars(s);
                let q = lead_digits(m);
                lemma_lead_digits(m);
                assert(pow10(q) >= 1);
                assert(digits_value(m.take(q)) >= 0) by {
                    lemma_lead_digits(m);
                    lemma_digits_monotone(m.take(q), 0);
                }
                if p < s.len() && s[p] != '.' {
                    assert(digits_value(s.take(p)) * 10 <= u64::MAX);
                } else {
                    assert(digits_value(s.take(p)) * pow10(q) >= digits_value(s.take(p))) by (nonlinear_arith)
                        requires pow10(q) >= 1, digits_value(s.take(p)) >= 0;
                }
            }
        }
        result = result * 10 + d;
        i += 1;
    }
    let ghost m = millis_chars(s);
    proof {
        lemma_lead_digits(m);
    }
    let mut j: usize = 0;
    while j < 3
        invariant
            n == s.len(),
            s == input@,
            p == lead_digits(s),
            i == p,
            0 <= p <= s.len(),
            forall|k: int| 0 <= k < p ==> is_digit(#[trigger] s[k]),
            p < s.len() ==> s[p] == '.',
            m == millis_chars(s),
            m.len() == 3,
            j <= 3,
            forall|k: int| 0 <= k < j ==> is_digit(#[trigger] m[k]),
            result == digits_value(s.take(p)) * pow10(j as int) + digits_value(m.take(j as int)),
            timestamp_fits(s),
        decreases 3 - j,
    {
        let ghost frac_len = if p < s.len() { s.len() - p - 1 } else { 0 };
        assert(m[j as int] == if (j as int) < frac_len { s[p + 1 + j] } else { '0' });
        let digit: u64 = if i < n && j < n - i - 1 {
            let c = input.get_char(i + 1 + j);
            match to_digit(c) {
                Some(d) => d,
                None => {
                    proof {
                        lemma_lead_digits_exact(m, j as int);
                    }
                    return None;
                },
            }
        } else {
            0
        };
        proof {
            assert(m.take(j + 1).drop_last() =~= m.take(j as int));
            assert(is_digit(m[j as int]));
            assert(digit == digit_value(m[j as int]));
            let iv0 = digits_value(s.take(p));
            let dvj = digits_value(m.take(j as int));
            let dvj1 = digits_value(m.take(j + 1));
            assert(dvj1 == dvj * 10 + digit);
            assert(pow10(j + 1) == pow10(j as int) * 10);
            assert((iv0 * pow10(j as int) + dvj) * 10 + digit == iv0 * pow10(j + 1) + dvj1) by (nonlinear_arith)
                requires pow10(j + 1) == pow10(j as int) * 10, dvj1 == dvj * 10 + digit;
            let q = lead_digits(m);
            assert(q >= j + 1) by {
                if q < j + 1 {
                    lemma_lead_digits(m);
                    assert(!is_digit(m[q]));
                }
            }
            assert(result * 10 + digit <= u64::MAX) by {
                lemma_lead_digits(m);
                lemma_digits_monotone(m.take(q), j + 1);
                assert(m.take(q).take(j + 1) =~= m.take(j + 1));
                let iv = digits_value(s.take(p));
                assert(iv >= 0) by {
                    assert forall|k: int| 0 <= k < s.take(p).len() implies is_digit(#[trigger] s.take(p)[k]) by {
                        assert(s.take(p)[k] == s[k]);
                    }
                    lemma_digits_monotone(s.take(p), 0);
                }
                assert(iv * pow10(j + 1) <= iv * pow10(q)) by (nonlinear_arith)
                    requires iv >= 0, pow10(j + 1) <= pow10(q);
                assert(digits_value(m.take(j + 1)) <= digits_value(m.take(q)) * pow10(q - j - 1) || true);
                lemma_digits_scale(m.take(q), j + 1, iv);
            }
        }
        result = result * 10 + digit;
        j += 1;
    }
    proof {
        assert(m.take(3) =~= m);
        lemma_lead_digits_exact(m, 3);
    }
    Some(result)
}

/// Appending digits never lowers the accumulated value.
proof fn lemma_digits_scale(t: Seq<char>, k: int, iv: int)
    requires
        0 <= k <= t.len() <= 3,
        iv >= 0,
        forall|i: int| 0 <= i < t.len() ==> is_digit(#[trigger] t[i]),
    ensures
        iv * pow10(k) + digits_value(t.take(k)) <= iv * pow10(t.len() as int) + digits_value(t),
    decreases t.len() - k,
{
    if k < t.len() {
        lemma_digits_scale(t, k + 1, iv);
        assert(t.take(k + 1).drop_last() =~= t.take(k));
        let a = digits_value(t.take(k));
        let d = digit_value(t[k]);
        assert(d >= 0);
        assert(a >= 0) by {
            assert forall|i: int| 0 <= i < t.take(k).len() implies is_digit(#[trigger] t.take(k)[i]) by {
                assert(t.take(k)[i] == t[i]);
            }
            lemma_digits_monotone(t.take(k), 0);
        }
        assert(pow10(k) >= 1);
        assert(iv * pow10(k) >= 0) by (nonlinear_arith)
            requires iv >= 0, pow10(k) >= 1;
        assert(iv * pow10(k + 1) == iv * pow10(k) * 10) by (nonlinear_arith)
            requires pow10(k + 1) == pow10(k) * 10;
        assert(iv * pow10(k) + a <= (iv * pow10(k) + a) * 10 + d) by (nonlinear_arith)
            requires iv * pow10(k) + a >= 0, d >= 0;
    } else {
        assert(t.take(k) =~= t);
    }
}

/// The value of an unsigned decimal number with an optional leading `'+'`; `None` when a
/// character is not a digit, there is no digit, or the value does not fit in `u64`.
pub open spec fn u64_of(s: Seq<char>) -> Option<u64> {
    let t = if s.len() > 0 && s[0] == '+' { s.drop_first() } else { s };
    if t.len() > 0 && lead_digits(t) == t.len() && digits_value(t) <= u64::MAX {
        Some(digits_value(t) as u64)
    } else {
        None
    }
}

/// Parses an unsigned decimal number as `str::parse::<u64>` does.
pub fn parse_u64(input: &str) -> (res: Option<u64>)
    ensures
        res == u64_of(input@),
{
    let ghost s = input@;
    let n = input.unicode_len();
    let mut start: usize = 0;
    if n > 0 && input.get_char(0) == '+' {
        start = 1;
    }
    let ghost t = if s.len() > 0 && s[0] == '+' { s.drop_first() } else { s };
    assert(t =~= s.skip(start as int));
    if start >= n {
        return None;
    }
    proof {
        lemma_lead_digits(t);
    }
    let mut result: u64 = 0;
    let mut i: usize = start;
    while i < n
        invariant
            n == s.len(),
            s == input@,
            t == s.skip(start as int),
            t == (if s.len() > 0 && s[0] == '+' { s.drop_first() } else { s }),
            start <= i <= n,
            start < n,
            forall|k: int| start <= k < i ==> is_digit(#[trigger] s[k]),
            result == digits_value(s.subrange(start as int, i as int)),
        decreases n - i,
    {
        let c = input.get_char(i);
        let d = match to_digit(c) {
            Some(d) => d,
            None => {
                proof {
                    lemma_lead_digits(t);
                    let k = i - start;
                    assert(t[k] == s[i as int]);
                    assert(s[i as int] == c);
                    assert(!is_digit(t[k]));
                    assert(lead_digits(t) <= k);
                    assert(lead_digits(t) != t.len());
                }
                return None;
            },
        };
        let ghost pre = s.subrange(start as int, i as int);
        let ghost next = s.subrange(start as int, i + 1);
        proof {
            assert(next.drop_last() =~= pre);
        }
        if result > 1844674407370955161 || (result == 1844674407370955161 && d > 5) {
            proof {
                assert(digits_value(next) > u64::MAX);
                assert forall|k: int| 0 <= k < next.len() implies is_digit(#[trigger] next[k]) by {
                    assert(next[k] == s[start + k]);
                }
                if lead_digits(t) == t.len() {
                    assert forall|k: int| 0 <= k < t.len() implies is_digit(#[trigger] t[k]) by {
                        assert(t[k] == s[start + k]);
                        if k >= i - start {
                            lemma_lead_digits(t);
                        }
                    }
                    lemma_digits_monotone(t, i + 1 - start);
                    assert(t.take(i + 1 - start) =~= next);
                }
            }
            return None;
        }
        result = result * 10 + d;
        i += 1;
    }
    proof {
        assert(s.subrange(start as int, n as int) =~= t);
        lemma_lead_digits_exact(t, t.len() as int);
    }
    Some(result)
}

/// One record: an event that happened at one instant, or one that spans two timestamps and
/// is therefore given twice.
pub enum RecordParseResult {
    Single(InputEvent),
    Dual(InputEvent, InputEvent),
}

/// The fields of a record are many enough and parse: two timestamps, the event id, then the
/// subject id and the object id.
pub open spec fn record_ok(r: Seq<String>) -> bool {
    &&& r.len() >= 8
    &&& timestamp_of(r[0]@) is Some
    &&& timestamp_of(r[1]@) is Some
    &&& u64_of(r[2]@) is Some
    &&& u64_of(r[4]@) is Some
    &&& u64_of(r[6]@) is Some
}

/// Reading the timestamps of a record never leaves `u64`, and its signatures are short enough
/// to be joined.
pub open spec fn record_fits(r: Seq<String>) -> bool {
    &&& r.len() > 0 ==> timestamp_fits(r[0]@)
    &&& (r.len() > 1 && timestamp_of(r[0]@) is Some) ==> timestamp_fits(r[1]@)
    &&& r.len() >= 8 ==> r[3]@.len() + r[5]@.len() + r[7]@.len() + 2 <= usize::MAX
}

/// Whether reading the record stays within the machine's integers ([record_fits]).
pub fn record_in_range(record: &[String]) -> (res: bool)
    ensures
        res == record_fits(record@),
{
    if record.len() > 0 {
        if !timestamp_in_range(record[0].as_str()) {
            return false;
        }
        if record.len() > 1 && parse_timestamp(record[0].as_str()).is_some()
            && !timestamp_in_range(record[1].as_str()) {
            return false;
        }
    }
    if record.len() >= 8 {
        let total = record[3].as_str().unicode_len() as u128 + record[5].as_str().unicode_len() as u128
            + record[7].as_str().unicode_len() as u128 + 2;
        if total > usize::MAX as u128 {
            return false;
        }
    }
    true
}

/// The input event of a record at timestamp `ts`.
pub open spec fn record_event_ok(r: Seq<String>, ts: int, e: InputEvent) -> bool {
    &&& e.timestamp == ts
    &&& Some(e.event_id) == u64_of(r[2]@)
    &&& Some(e.subject_id) == u64_of(r[4]@)
    &&& Some(e.object_id) == u64_of(r[6]@)
    &&& e.event_signature_view() == r[3]@
    &&& e.subject_signature_view() == r[5]@
    &&& e.object_signature_view() == r[7]@
}

/// Parses a record of the data graph: start time, end time, event id, event signature,
/// subject id, subject signature, object id, object signature. An event whose two timestamps
/// differ is returned once for each of them.
pub fn parse_record(record: &[String]) -> (res: Option<RecordParseResult>)
    requires
        record_fits(record@),
    ensures
        res is Some <==> record_ok(record@),
        res matches Some(r) ==> {
            let t1 = timestamp_of(record@[0]@)->0;
            let t2 = timestamp_of(record@[1]@)->0;
            match r {
                RecordParseResult::Single(e) => t1 == t2 && record_event_ok(record@, t1, e),
                RecordParseResult::Dual(e1, e2) => t1 != t2 && record_event_ok(record@, t1, e1)
                    && record_event_ok(record@, t2, e2),
            }
        },
{
    if record.len() < 1 {
        return None;
    }
    let timestamp1 = match parse_timestamp(record[0].as_str()) {
        Some(t) => t,
        None => return None,
    };
    if record.len() < 2 {
        return None;
    }
    let timestamp2 = match parse_timestamp(record[1].as_str()) {
        Some(t) => t,
        None => return None,
    };
    if record.len() < 8 {
        return None;
    }
    let event_id = match parse_u64(record[2].as_str()) {
        Some(v) => v,
        None => return None,
    };
    let event_sig = record[3].as_str();
    let subject_id = match parse_u64(record[4].as_str()) {
        Some(v) => v,
        None => return None,
    };
    let subject_sig = record[5].as_str();
    let object_id = match parse_u64(record[6].as_str()) {
        Some(v) => v,
        None => return None,
    };
    let object_sig = record[7].as_str();
    if timestamp1 != timestamp2 {
        Some(
            RecordParseResult::Dual(
                InputEvent::new(timestamp1, event_id, event_sig, subject_id, subject_sig, object_id, object_sig),
                InputEvent::new(timestamp2, event_id, event_sig, subject_id, subject_sig, object_id, object_sig),
            ),
        )
    } else {
        Some(
            RecordParseResult::Single(
                InputEvent::new(timestamp1, event_id, event_sig, subject_id, subject_sig, object_id, object_sig),
            ),
        )
    }
}

/// How many input events a record gives.
pub open spec fn record_event_count(r: Seq<String>) -> int {
    if !record_ok(r) {
        0
    } else if timestamp_of(r[0]@) != timestamp_of(r[1]@) {
        2
    } else {
        1
    }
}

/// `a` comes before `b`: by timestamp, then by position in the input.
pub open spec fn comes_before(a: OrderedEvent, b: OrderedEvent) -> bool {
    a.event.timestamp < b.event.timestamp || (a.event.timestamp == b.event.timestamp && a.order < b.order)
}

/// The events of `s` are in input order.
pub open spec fn in_input_order(s: Seq<OrderedEvent>) -> bool {
    forall|i: int, j: int| 0 <= i < j < s.len() ==> comes_before(#[trigger] s[i], #[trigger] s[j])
}

/// The layer that reads records, and hands out the input events in batches: each batch holds
/// the events before the latest timestamp read, in order of timestamp and then of input.
pub struct ParseLayer {
    /// The events read and not handed out yet.
    pub buffer: Vec<OrderedEvent>,
    /// The timestamp of the latest record read; `u64::MAX` once the input is over.
    pub boundary_time: u64,
    /// The number of events read so far, which numbers them.
    pub event_count: u32,
}

impl ParseLayer {
    /// Every buffered event has its own position, below the number of events read.
    pub open spec fn inv(&self) -> bool {
        &&& forall|i: int, j: int| 0 <= i < j < self.buffer@.len() ==> (#[trigger] self.buffer@[i]).order != (#[trigger] self.buffer@[j]).order
        &&& forall|i: int| 0 <= i < self.buffer@.len() ==> (#[trigger] self.buffer@[i]).order < self.event_count
    }

    /// A layer that has read nothing.
    pub fn new() -> (res: Self)
        ensures
            res.inv(),
            res.buffer@.len() == 0,
            res.boundary_time == 0,
            res.event_count == 0,
    {
        ParseLayer { buffer: Vec::new(), boundary_time: 0, event_count: 0 }
    }

    /// Takes the fields of a record read from the input. A record that does not parse is
    /// skipped; otherwise its events are buffered and its first timestamp becomes the boundary.
    pub fn accept_record(&mut self, record: &[String])
        requires
            old(self).inv(),
            record_fits(record@),
            old(self).event_count + record_event_count(record@) <= u32::MAX,
        ensures
            final(self).inv(),
            final(self).event_count == old(self).event_count + record_event_count(record@),
            !record_ok(record@) ==> final(self).buffer@ == old(self).buffer@ && final(self).boundary_time
                == old(self).boundary_time,
            record_ok(record@) ==> {
                let t1 = timestamp_of(record@[0]@)->0;
                let t2 = timestamp_of(record@[1]@)->0;
                let n = old(self).buffer@.len();
                &&& final(self).boundary_time == t1
                &&& final(self).buffer@.len() == n + record_event_count(record@)
                &&& final(self).buffer@.take(n as int) == old(self).buffer@
                &&& final(self).buffer@[n as int].order == old(self).event_count
                &&& record_event_ok(record@, t1, final(self).buffer@[n as int].event)
                &&& t1 != t2 ==> final(self).buffer@[n as int + 1].order == old(self).event_count + 1
                    && record_event_ok(record@, t2, final(self).buffer@[n as int + 1].event)
            },
    {
        let ghost before = self.buffer@;
        match parse_record(record) {
            Some(RecordParseResult::Single(input)) => {
                self.boundary_time = input.timestamp;
                self.buffer.push(OrderedEvent::new(input, self.event_count));
                self.event_count = self.event_count + 1;
                proof {
                    assert(self.buffer@.take(before.len() as int) =~= before);
                    assert forall|i: int| 0 <= i < self.buffer@.len() implies (#[trigger] self.buffer@[i]).order < self.event_count by {
                        if i < before.len() {
                            assert(self.buffer@[i] == before[i]);
                        }
                    }
                    assert forall|i: int, j: int| 0 <= i < j < self.buffer@.len() implies (#[trigger] self.buffer@[i]).order != (#[trigger] self.buffer@[j]).order by {
                        assert(self.buffer@[i] == before[i]);
                        if j < before.len() {
                            assert(self.buffer@[j] == before[j]);
                        }
                    }
                }
            },
            Some(RecordParseResult::Dual(input1, input2)) => {
                self.boundary_time = input1.timestamp;
                self.buffer.push(OrderedEvent::new(input1, self.event_count));
                self.buffer.push(OrderedEvent::new(input2, self.event_count + 1));
                self.event_count = self.event_count + 2;
                proof {
                    assert(self.buffer@.take(before.len() as int) =~= before);
                    assert forall|i: int| 0 <= i < self.buffer@.len() implies (#[trigger] self.buffer@[i]).order < self.event_count by {
                        if i < before.len() {
                            assert(self.buffer@[i] == before[i]);
                        }
                    }
                    assert forall|i: int, j: int| 0 <= i < j < self.buffer@.len() implies (#[trigger] self.buffer@[i]).order != (#[trigger] self.buffer@[j]).order by {
                        if i < before.len() {
                            assert(self.buffer@[i] == before[i]);
                        }
                        if j < before.len() {
                            assert(self.buffer@[j] == before[j]);
                        }
                    }
                }
            },
            None => {},
        }
    }

    /// Called when the input is over: every buffered event can be handed out.
    pub fn end_of_input(&mut self)
        ensures
            final(self).boundary_time == u64::MAX,
            final(self).buffer@ == old(self).buffer@,
            final(self).event_count == old(self).event_count,
    {
        self.boundary_time = u64::MAX;
    }

    /// No buffered event is before the boundary.
    pub fn nothing_to_send(&self) -> (res: bool)
        ensures
            res == forall|i: int| 0 <= i < self.buffer@.len() ==> (#[trigger] self.buffer@[i]).event.timestamp >= self.boundary_time,
    {
        let mut k: usize = 0;
        while k < self.buffer.len()
            invariant
                k <= self.buffer@.len(),
                forall|i: int| 0 <= i < k ==> (#[trigger] self.buffer@[i]).event.timestamp >= self.boundary_time,
            decreases self.buffer@.len() - k,
        {
            if self.buffer[k].event.timestamp < self.boundary_time {
                return false;
            }
            k += 1;
        }
        true
    }

    /// Hands out the buffered events before the boundary, in order of timestamp and then of
    /// input; `None` when there is none.
    pub fn get_batch(&mut self) -> (res: Option<Vec<Rc<InputEvent>>>)
        requires
            old(self).inv(),
        ensures
            final(self).inv(),
            final(self).boundary_time == old(self).boundary_time,
            final(self).event_count == old(self).event_count,
            forall|i: int| 0 <= i < final(self).buffer@.len() ==> (#[trigger] final(self).buffer@[i]).event.timestamp
                >= old(self).boundary_time,
            res is None <==> forall|i: int| 0 <= i < old(self).buffer@.len() ==> (#[trigger] old(self).buffer@[i]).event.timestamp
                >= old(self).boundary_time,
            exists|moved: Seq<OrderedEvent>| {
                &&& in_input_order(moved)
                &&& forall|k: int| 0 <= k < moved.len() ==> (#[trigger] moved[k]).event.timestamp < old(self).boundary_time
                &&& moved.to_multiset().add(final(self).buffer@.to_multiset()) == old(self).buffer@.to_multiset()
                &&& match res {
                    Some(v) => v@.len() == moved.len() && forall|k: int| 0 <= k < moved.len() ==> *#[trigger] v@[k] == moved[k].event,
                    None => moved.len() == 0,
                }
            },
    {
        let ghost orig = self.buffer@;
        let mut edges_to_flush: Vec<Rc<InputEvent>> = Vec::new();
        let ghost mut moved: Seq<OrderedEvent> = Seq::empty();
        assert(moved.to_multiset() =~= vstd::multiset::Multiset::empty());
        loop
            invariant
                self.inv(),
                self.boundary_time == old(self).boundary_time,
                self.event_count == old(self).event_count,
                orig == old(self).buffer@,
                in_input_order(moved),
                forall|k: int| 0 <= k < moved.len() ==> (#[trigger] moved[k]).event.timestamp < self.boundary_time,
                forall|k: int, m: int| 0 <= k < moved.len() && 0 <= m < self.buffer@.len()
                    ==> comes_before(#[trigger] moved[k], #[trigger] self.buffer@[m]),
                moved.to_multiset().add(self.buffer@.to_multiset()) == orig.to_multiset(),
                edges_to_flush@.len() == moved.len(),
                forall|k: int| 0 <= k < moved.len() ==> *#[trigger] edges_to_flush@[k] == moved[k].event,
            ensures
                self.inv(),
                self.boundary_time == old(self).boundary_time,
                self.event_count == old(self).event_count,
                in_input_order(moved),
                forall|k: int| 0 <= k < moved.len() ==> (#[trigger] moved[k]).event.timestamp < self.boundary_time,
                forall|i: int| 0 <= i < self.buffer@.len() ==> (#[trigger] self.buffer@[i]).event.timestamp >= self.boundary_time,
                moved.to_multiset().add(self.buffer@.to_multiset()) == orig.to_multiset(),
                edges_to_flush@.len() == moved.len(),
                forall|k: int| 0 <= k < moved.len() ==> *#[trigger] edges_to_flush@[k] == moved[k].event,
            decreases self.buffer@.len(),
        {
            let n = self.buffer.len();
            if n == 0 {
                break;
            }
            let mut best: usize = 0;
            let mut k: usize = 1;
            while k < n
                invariant
                    n == self.buffer@.len(),
                    0 < k <= n,
                    best < k,
                    forall|i: int| 0 <= i < k && i != best ==> comes_before(self.buffer@[best as int], #[trigger] self.buffer@[i]),
                    self.inv(),
                decreases n - k,
            {
                let a = &self.buffer[k];
                let b = &self.buffer[best];
                if a.event.timestamp < b.event.timestamp || (a.event.timestamp == b.event.timestamp && a.order < b.order) {
                    proof {
                        assert forall|i: int| 0 <= i < k + 1 && i != k implies comes_before(self.buffer@[k as int], #[trigger] self.buffer@[i]) by {
                            if i != best {
                                assert(comes_before(self.buffer@[best as int], self.buffer@[i]));
                            }
                        }
                    }
                    best = k;
                } else {
                    proof {
                        assert(self.buffer@[best as int].order != self.buffer@[k as int].order);
                    }
                }
                k += 1;
            }
            if self.buffer[best].event.timestamp >= self.boundary_time {
                assert forall|m: int| 0 <= m < self.buffer@.len() implies (#[trigger] self.buffer@[m]).event.timestamp >= self.boundary_time by {
                    if m != best {
                        assert(comes_before(self.buffer@[best as int], self.buffer@[m]));
                    }
                }
                break;
            }
            let ghost seq0 = self.buffer@;
            let ghost moved0 = moved;
            let item = self.buffer.remove(best);
            let ghost item_ghost = item;
            edges_to_flush.push(Rc::new(InputEvent::from(item)));
            proof {
                moved = moved0.push(item_ghost);
                let seq1 = self.buffer@;
                assert(seq1 == seq0.remove(best as int));
                assert forall|i: int, j: int| 0 <= i < j < seq1.len() implies (#[trigger] seq1[i]).order != (#[trigger] seq1[j]).order by {
                    let ii = if i < best { i } else { i + 1 };
                    let jj = if j < best { j } else { j + 1 };
                    assert(seq1[i] == seq0[ii]);
                    assert(seq1[j] == seq0[jj]);
                }
                assert forall|i: int| 0 <= i < seq1.len() implies (#[trigger] seq1[i]).order < self.event_count by {
                    let ii = if i < best { i } else { i + 1 };
                    assert(seq1[i] == seq0[ii]);
                }
                assert forall|k: int, m: int| 0 <= k < moved.len() && 0 <= m < seq1.len()
                    implies comes_before(#[trigger] moved[k], #[trigger] seq1[m]) by {
                    let mm = if m < best { m } else { m + 1 };
                    assert(seq1[m] == seq0[mm]);
                    if k < moved0.len() {
                        assert(moved[k] == moved0[k]);
                    } else {
                        assert(mm != best);
                    }
                }
                assert forall|i: int, j: int| 0 <= i < j < moved.len() implies comes_before(#[trigger] moved[i], #[trigger] moved[j]) by {
                    assert(moved[i] == moved0[i]);
                    if j < moved0.len() {
                        assert(moved[j] == moved0[j]);
                    }
                }
                assert forall|k: int| 0 <= k < moved.len() implies (#[trigger] moved[k]).event.timestamp < self.boundary_time by {
                    if k < moved0.len() {
                        assert(moved[k] == moved0[k]);
                    }
                }
                vstd::seq_lib::to_multiset_remove(seq0, best as int);
                assert(moved.to_multiset().add(seq1.to_multiset()) =~= moved0.to_multiset().add(seq0.to_multiset()));
            }
        }
        if edges_to_flush.len() > 0 {
            proof {
                let x = moved[0];
                assert(moved.to_multiset().count(x) > 0);
                assert(orig.to_multiset().count(x) > 0);
                assert(orig.contains(x));
                let i = choose|i: int| 0 <= i < orig.len() && orig[i] == x;
                assert(orig[i].event.timestamp < self.boundary_time);
            }
            Some(edges_to_flush)
        } else {
            proof {
                assert(moved.to_multiset() =~= vstd::multiset::Multiset::empty()) by {
                    assert(moved =~= Seq::<OrderedEvent>::empty());
                }
                assert(self.buffer@.to_multiset() =~= orig.to_multiset());
                assert forall|i: int| 0 <= i < orig.len() implies (#[trigger] orig[i]).event.timestamp >= self.boundary_time by {
                    assert(orig.to_multiset().count(orig[i]) > 0);
                    assert(self.buffer@.to_multiset().count(orig[i]) > 0);
                    assert(self.buffer@.contains(orig[i]));
                }
            }
            None
        }
    }
}

} // verus!
