//! JSON number text read as an unsigned size: the whole part of the number,
//! toward zero, held to the range of `u64`.
use vstd::prelude::*;
use crate::text::{all_digits, chars_of, digits_value, is_ascii_digit};

verus! {

/// `k` ASCII digits open `s`, and the run of digits stops there.
pub open spec fn digit_run_is(s: Seq<char>, k: int) -> bool {
    &&& 0 <= k <= s.len()
    &&& forall|i: int| 0 <= i < k ==> is_ascii_digit(#[trigger] s[i])
    &&& (k == s.len() || !is_ascii_digit(s[k]))
}

/// The number of ASCII digits that open `s`.
pub open spec fn digit_run(s: Seq<char>) -> int {
    choose|k: int| digit_run_is(s, k)
}

/// The pieces of a JSON number: its sign, the digits before and after the
/// point, and the exponent's sign and digits.
pub struct NumberParts {
    pub neg: bool,
    pub int: Seq<char>,
    pub frac: Seq<char>,
    pub exp_neg: bool,
    pub exp: Seq<char>,
}

/// The exponent that ends a number: nothing, or `e`/`E`, an optional sign and
/// one or more digits.
pub open spec fn exponent_part(rest: Seq<char>) -> Option<(bool, Seq<char>)> {
    if rest.len() == 0 {
        Some((false, Seq::empty()))
    } else if rest[0] == 'e' || rest[0] == 'E' {
        let r = rest.drop_first();
        let signed = r.len() > 0 && (r[0] == '-' || r[0] == '+');
        let ds = if signed { r.drop_first() } else { r };
        if ds.len() > 0 && all_digits(ds) {
            Some((signed && r[0] == '-', ds))
        } else {
            None
        }
    } else {
        None
    }
}

/// The fraction that may follow the digits before the point: nothing, or
/// `.` and one or more digits; with what follows it.
pub open spec fn fraction_part(rest: Seq<char>) -> Option<(Seq<char>, Seq<char>)> {
    if rest.len() > 0 && rest[0] == '.' {
        let after = rest.drop_first();
        let f = digit_run(after);
        if f == 0 {
            None
        } else {
            Some((after.take(f), after.skip(f)))
        }
    } else {
        Some((Seq::empty(), rest))
    }
}

/// A number's text split into its pieces: an optional `-`, one or more
/// digits, the fraction, then the exponent.
pub open spec fn number_parts(t: Seq<char>) -> Option<NumberParts> {
    let neg = t.len() > 0 && t[0] == '-';
    let body = if neg { t.drop_first() } else { t };
    let k = digit_run(body);
    if k == 0 {
        None
    } else {
        match fraction_part(body.skip(k)) {
            Some((frac, rest)) => match exponent_part(rest) {
                Some((exp_neg, exp)) => Some(NumberParts { neg, int: body.take(k), frac, exp_neg, exp }),
                None => None,
            },
            None => None,
        }
    }
}

/// The digit at position `i` of `ds`, zero past its end.
pub open spec fn padded_digit(ds: Seq<char>, i: int) -> nat {
    if 0 <= i < ds.len() {
        ((ds[i] as u32) - 48) as nat
    } else {
        0
    }
}

/// The value of the first `n` digits of `ds`, with zeros past its end.
pub open spec fn lead_value(ds: Seq<char>, n: nat) -> nat
    decreases n,
{
    if n == 0 {
        0
    } else {
        lead_value(ds, (n - 1) as nat) * 10 + padded_digit(ds, n - 1)
    }
}

/// A number's text as a size: the whole part toward zero (the digits that
/// stand before the point once the exponent has moved it), 0 for a negative
/// number, `u64::MAX` past the range; `None` for text that is not a number.
pub open spec fn number_u64(t: Seq<char>) -> Option<u64> {
    match number_parts(t) {
        Some(p) => {
            let e: int = if p.exp_neg { -(digits_value(p.exp) as int) } else { digits_value(p.exp) as int };
            let whole: int = p.int.len() + e;
            if p.neg || whole <= 0 {
                Some(0u64)
            } else {
                let v = lead_value(p.int + p.frac, whole as nat);
                Some(if v > u64::MAX { u64::MAX } else { v as u64 })
            }
        }
        None => None,
    }
}

pub open spec fn pow10(k: nat) -> nat
    decreases k,
{
    if k == 0 {
        1
    } else {
        10 * pow10((k - 1) as nat)
    }
}

proof fn lemma_digit_run(s: Seq<char>, k: int)
    requires
        digit_run_is(s, k),
    ensures
        digit_run(s) == k,
{
    let j = digit_run(s);
    assert(digit_run_is(s, j));
    if j < k {
        assert(is_ascii_digit(s[j]));
    }
    if k < j {
        assert(is_ascii_digit(s[k]));
    }
}

proof fn lemma_pow10_grows(k: nat)
    requires
        k >= 20,
    ensures
        pow10(k) >= pow10(20),
    decreases k,
{
    if k > 20 {
        lemma_pow10_grows((k - 1) as nat);
    }
}

proof fn lemma_lead_past_end(ds: Seq<char>, k: nat)
    ensures
        lead_value(ds, ds.len() + k) == lead_value(ds, ds.len()) * pow10(k),
    decreases k,
{
    if k == 0 {
        assert(pow10(0) == 1);
        assert(lead_value(ds, ds.len()) * 1 == lead_value(ds, ds.len()));
    } else {
        lemma_lead_past_end(ds, (k - 1) as nat);
        let a = lead_value(ds, ds.len());
        let b = pow10((k - 1) as nat);
        let n = (ds.len() + k) as nat;
        assert(pow10(k) == 10 * b);
        assert(padded_digit(ds, n - 1) == 0);
        assert(lead_value(ds, n) == lead_value(ds, (n - 1) as nat) * 10 + padded_digit(ds, n - 1));
        assert(((n - 1) as nat) == ds.len() + ((k - 1) as nat));
        assert(lead_value(ds, (n - 1) as nat) == a * b);
        assert((a * b) * 10 == a * (10 * b)) by (nonlinear_arith);
    }
}

/// Past twenty zeros beyond the digits, the value is zero or beyond `u64::MAX`.
proof fn lemma_lead_saturates(ds: Seq<char>, whole: nat)
    requires
        whole >= ds.len() + 20,
    ensures
        lead_value(ds, whole) == 0 <==> lead_value(ds, ds.len() + 20) == 0,
        lead_value(ds, whole) > 0 ==> lead_value(ds, whole) > u64::MAX,
        lead_value(ds, ds.len() + 20) > 0 ==> lead_value(ds, ds.len() + 20) > u64::MAX,
{
    let k = (whole - ds.len()) as nat;
    lemma_lead_past_end(ds, k);
    lemma_lead_past_end(ds, 20);
    lemma_pow10_grows(k);
    assert(pow10(20) == 100000000000000000000) by {
        reveal_with_fuel(pow10, 21);
    }
    let a = lead_value(ds, ds.len());
    let b = pow10(k);
    let c = pow10(20);
    assert(a == 0 ==> a * b == 0 && a * c == 0) by (nonlinear_arith);
    assert(a >= 1 && b >= c ==> a * b >= c) by (nonlinear_arith);
    assert(a >= 1 ==> a * c >= c) by (nonlinear_arith);
}

/// The end of the run of digits that starts at `from`.
fn scan_digits(s: &Vec<char>, from: usize) -> (j: usize)
    requires
        from <= s.len(),
    ensures
        from <= j <= s.len(),
        digit_run_is(s@.skip(from as int), j - from),
{
    let mut j = from;
    while j < s.len() && '0' <= s[j] && s[j] <= '9'
        invariant
            from <= j <= s.len(),
            forall|i: int| from <= i < j ==> is_ascii_digit(#[trigger] s@[i]),
        decreases s.len() - j,
    {
        j = j + 1;
    }
    proof {
        let t = s@.skip(from as int);
        assert forall|i: int| 0 <= i < j - from implies is_ascii_digit(#[trigger] t[i]) by {
            assert(t[i] == s@[from + i]);
        }
        if j < s.len() {
            assert(t[j - from] == s@[j as int]);
        }
    }
    j
}

/// The digits from `m` to the end, their value held at `cap`; `None` when a
/// character there is not a digit.
fn capped_digits(s: &Vec<char>, m: usize, cap: u128) -> (r: Option<u128>)
    requires
        m <= s.len(),
        cap <= 0x1_0000_0000_0000_0000_0000_0000_0000,
    ensures
        match r {
            Some(v) => all_digits(s@.skip(m as int))
                && v == if digits_value(s@.skip(m as int)) >= cap { cap as nat } else { digits_value(s@.skip(m as int)) },
            None => !all_digits(s@.skip(m as int)),
        },
{
    let mut acc: u128 = 0;
    let mut i = m;
    while i < s.len()
        invariant
            m <= i <= s.len(),
            cap <= 0x1_0000_0000_0000_0000_0000_0000_0000,
            all_digits(s@.subrange(m as int, i as int)),
            acc == if digits_value(s@.subrange(m as int, i as int)) >= cap { cap as nat }
                else { digits_value(s@.subrange(m as int, i as int)) },
        decreases s.len() - i,
    {
        let c = s[i];
        let ghost pre = s@.subrange(m as int, i as int);
        let ghost nxt = s@.subrange(m as int, i + 1);
        assert(nxt.drop_last() =~= pre);
        assert(nxt.last() == c);
        if !('0' <= c && c <= '9') {
            assert(s@.skip(m as int)[i - m] == c);
            return None;
        }
        let d: u128 = (c as u32 - 48) as u128;
        assert(digits_value(nxt) == digits_value(pre) * 10 + d);
        if acc < cap {
            let v = acc * 10 + d;
            acc = if v >= cap { cap } else { v };
        }
        assert(all_digits(nxt)) by {
            assert forall|k: int| 0 <= k < nxt.len() implies is_ascii_digit(#[trigger] nxt[k]) by {
                if k < nxt.len() - 1 {
                    assert(nxt[k] == pre[k]);
                }
            }
        }
        i = i + 1;
    }
    assert(s@.subrange(m as int, s.len() as int) =~= s@.skip(m as int));
    Some(acc)
}

/// Appends the characters of `s` from `a` to `b`.
fn push_range(ds: &mut Vec<char>, s: &Vec<char>, a: usize, b: usize)
    requires
        a <= b <= s.len(),
    ensures
        final(ds)@ == old(ds)@ + s@.subrange(a as int, b as int),
{
    let mut i = a;
    while i < b
        invariant
            a <= i <= b <= s.len(),
            ds@ == old(ds)@ + s@.subrange(a as int, i as int),
        decreases b - i,
    {
        ds.push(s[i]);
        assert(s@.subrange(a as int, i + 1) =~= s@.subrange(a as int, i as int).push(s@[i as int]));
        i = i + 1;
    }
}

proof fn lemma_run_digits(s: Seq<char>, from: int, j: int)
    requires
        0 <= from <= j <= s.len(),
        digit_run_is(s.skip(from), j - from),
    ensures
        all_digits(s.subrange(from, j)),
        s.skip(from).take(j - from) == s.subrange(from, j),
        s.skip(from).skip(j - from) == s.skip(j),
{
    assert forall|i: int| 0 <= i < j - from implies is_ascii_digit(#[trigger] s.subrange(from, j)[i]) by {
        assert(s.skip(from)[i] == s[from + i]);
    }
    assert(s.skip(from).take(j - from) =~= s.subrange(from, j));
    assert(s.skip(from).skip(j - from) =~= s.skip(j));
}

/// Where the fraction after position `k` ends.
fn fraction_at(s: &Vec<char>, k: usize) -> (r: Option<usize>)
    requires
        k <= s.len(),
    ensures
        match r {
            Some(fe) => {
                &&& k <= fe <= s.len()
                &&& fraction_part(s@.skip(k as int)) matches Some((frac, rest))
                &&& rest == s@.skip(fe as int)
                &&& all_digits(frac)
                &&& frac == if fe == k { Seq::<char>::empty() } else { s@.subrange(k + 1, fe as int) }
            },
            None => fraction_part(s@.skip(k as int)) is None,
        },
{
    if k < s.len() && s[k] == '.' {
        let fe = scan_digits(s, k + 1);
        proof {
            assert(s@.skip(k as int).drop_first() =~= s@.skip(k + 1));
            lemma_digit_run(s@.skip(k + 1), fe - k - 1);
            lemma_run_digits(s@, k + 1, fe as int);
        }
        if fe == k + 1 {
            return None;
        }
        Some(fe)
    } else {
        assert(all_digits(Seq::<char>::empty()));
        Some(k)
    }
}

/// The exponent from position `k` on, its value held at `EXP_CAP`.
fn exponent_at(s: &Vec<char>, k: usize) -> (r: Option<(bool, u128)>)
    requires
        k <= s.len(),
    ensures
        match r {
            Some((neg, e)) => exponent_part(s@.skip(k as int)) matches Some((n2, ds)) && n2 == neg
                && e == if digits_value(ds) >= EXP_CAP { EXP_CAP as nat } else { digits_value(ds) },
            None => exponent_part(s@.skip(k as int)) is None,
        },
{
    let ghost rest = s@.skip(k as int);
    if k == s.len() {
        assert(rest.len() == 0);
        assert(digits_value(Seq::<char>::empty()) == 0);
        return Some((false, 0));
    }
    if !(s[k] == 'e' || s[k] == 'E') {
        return None;
    }
    let mut m = k + 1;
    let mut neg = false;
    assert(rest.drop_first() =~= s@.skip(m as int));
    if m < s.len() && (s[m] == '-' || s[m] == '+') {
        neg = s[m] == '-';
        m = m + 1;
        assert(rest.drop_first().drop_first() =~= s@.skip(m as int));
    }
    if m == s.len() {
        return None;
    }
    match capped_digits(s, m, EXP_CAP) {
        Some(v) => Some((neg, v)),
        None => None,
    }
}

/// The pieces of the number `s` holds: its sign, its digits before and after
/// the point, how many stand before it, the exponent's sign and its value held
/// at `EXP_CAP`.
fn split_number(s: &Vec<char>) -> (r: Option<(bool, Vec<char>, usize, bool, u128)>)
    ensures
        match r {
            Some((neg, ds, il, exp_neg, e)) => number_parts(s@) matches Some(p) && p.neg == neg
                && ds@ == p.int + p.frac && il == p.int.len() && p.exp_neg == exp_neg
                && all_digits(ds@)
                && e == if digits_value(p.exp) >= EXP_CAP { EXP_CAP as nat } else { digits_value(p.exp) },
            None => number_parts(s@) is None,
        },
{
    let neg = s.len() > 0 && s[0] == '-';
    let b: usize = if neg { 1 } else { 0 };
    let ghost body = if neg { s@.drop_first() } else { s@ };
    assert(body =~= s@.skip(b as int));
    let ie = scan_digits(s, b);
    proof {
        lemma_digit_run(body, ie - b);
        lemma_run_digits(s@, b as int, ie as int);
    }
    if ie == b {
        return None;
    }
    let fe = match fraction_at(s, ie) {
        Some(fe) => fe,
        None => {
            return None;
        },
    };
    let (exp_neg, e) = match exponent_at(s, fe) {
        Some(x) => x,
        None => {
            return None;
        },
    };
    let mut ds: Vec<char> = Vec::new();
    push_range(&mut ds, s, b, ie);
    if fe > ie {
        push_range(&mut ds, s, ie + 1, fe);
    }
    proof {
        let frac = if fe == ie { Seq::<char>::empty() } else { s@.subrange(ie + 1, fe as int) };
        assert(ds@ =~= s@.subrange(b as int, ie as int) + frac);
        assert(all_digits(ds@)) by {
            assert forall|j: int| 0 <= j < ds@.len() implies is_ascii_digit(#[trigger] ds@[j]) by {
                if j < ie - b {
                    assert(ds@[j] == s@.subrange(b as int, ie as int)[j]);
                } else {
                    assert(ds@[j] == frac[j - (ie - b)]);
                }
            }
        }
    }
    Some((neg, ds, ie - b, exp_neg, e))
}

pub const EXP_CAP: u128 = 0x2_0000_0000_0000_0000;

/// The whole part of the digits `ds` once the point, after the first `il`
/// of them, has moved by the exponent, held to the range of `u64`.
pub open spec fn whole_value(ds: Seq<char>, il: nat, exp_neg: bool, exact: nat) -> u64 {
    let whole: int = il + if exp_neg { -(exact as int) } else { exact as int };
    if whole <= 0 {
        0
    } else {
        let v = lead_value(ds, whole as nat);
        if v > u64::MAX { u64::MAX } else { v as u64 }
    }
}

fn whole_part(ds: &Vec<char>, il: usize, exp_neg: bool, e: u128, Ghost(exact): Ghost<nat>) -> (r: u64)
    requires
        all_digits(ds@),
        il <= ds.len(),
        e == if exact >= EXP_CAP { EXP_CAP as nat } else { exact },
    ensures
        r == whole_value(ds@, il as nat, exp_neg, exact),
{
    let il128: u128 = il as u128;
    let whole: u128 = if exp_neg {
        if e >= il128 {
            return 0;
        }
        il128 - e
    } else {
        il128 + e
    };
    let cap_len: u128 = ds.len() as u128 + 20;
    let n: u128 = if whole < cap_len { whole } else { cap_len };
    let max: u128 = u64::MAX as u128;
    let mut acc: u128 = 0;
    let mut i: u128 = 0;
    while i < n
        invariant
            i <= n <= cap_len,
            cap_len == ds.len() + 20,
            all_digits(ds@),
            acc == if lead_value(ds@, i as nat) > u64::MAX { u64::MAX as nat } else { lead_value(ds@, i as nat) },
            max == u64::MAX,
        decreases n - i,
    {
        let d: u128 = if i < ds.len() as u128 {
            let c = ds[i as usize];
            (c as u32 - 48) as u128
        } else {
            0
        };
        assert(d == padded_digit(ds@, i as int));
        assert(lead_value(ds@, (i + 1) as nat) == lead_value(ds@, i as nat) * 10 + d);
        if acc < max {
            let v = acc * 10 + d;
            acc = if v > max { max } else { v };
        }
        i = i + 1;
    }
    proof {
        let whole_true: int = il + if exp_neg { -(exact as int) } else { exact as int };
        if whole_true >= ds.len() + 20 {
            lemma_lead_saturates(ds@, whole_true as nat);
        }
    }
    acc as u64
}

/// Reads a JSON number's text as a size, the way a cast of the number to
/// `u64` takes it: the whole part toward zero, 0 when negative, `u64::MAX`
/// past the range. The digits are taken exactly, with no rounding to a
/// float on the way.
pub fn number_as_u64(t: &str) -> (r: Option<u64>)
    ensures
        r == number_u64(t@),
{
    let s = chars_of(t);
    match split_number(&s) {
        None => None,
        Some((neg, ds, il, exp_neg, e)) => {
            let ghost p = number_parts(t@)->0;
            if neg {
                return Some(0);
            }
            Some(whole_part(&ds, il, exp_neg, e, Ghost(digits_value(p.exp))))
        },
    }
}

} // verus!
