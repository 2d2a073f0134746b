//! Character-level grammar of the wire format: splitting text into
//! non-empty fields, and the numerals that fields may hold.

use vstd::prelude::*;
use vstd::std_specs::iter::IteratorSpec;

verus! {

/// The pieces of `s` between occurrences of `a` or `b`, empty pieces
/// included, as `str::split` yields them.
pub open spec fn pieces(s: Seq<char>, a: char, b: char) -> Seq<Seq<char>>
    decreases s.len(),
{
    if s.len() == 0 {
        seq![Seq::<char>::empty()]
    } else {
        let p = pieces(s.drop_last(), a, b);
        let c = s.last();
        if c == a || c == b {
            p.push(Seq::<char>::empty())
        } else {
            p.update(p.len() - 1, p.last().push(c))
        }
    }
}

/// The non-empty members of `p`, in order.
pub open spec fn nonempty_only(p: Seq<Seq<char>>) -> Seq<Seq<char>>
    decreases p.len(),
{
    if p.len() == 0 {
        p
    } else if p.last().len() > 0 {
        nonempty_only(p.drop_last()).push(p.last())
    } else {
        nonempty_only(p.drop_last())
    }
}

/// The non-empty runs of `s` that contain neither `a` nor `b`, in order.
pub open spec fn tokens(s: Seq<char>, a: char, b: char) -> Seq<Seq<char>> {
    nonempty_only(pieces(s, a, b))
}

/// The character sequences of the vectors of `v`, in order.
pub open spec fn views_of(v: Seq<Vec<char>>) -> Seq<Seq<char>> {
    v.map_values(|p: Vec<char>| p@)
}

/// Splits `s` at every `a` or `b` and keeps the non-empty pieces.
pub fn split_nonempty(s: &[char], a: char, b: char) -> (r: Vec<Vec<char>>)
    ensures
        views_of(r@) == tokens(s@, a, b),
{
    let mut done: Vec<Vec<char>> = Vec::new();
    let mut cur: Vec<char> = Vec::new();
    let mut i: usize = 0;
    proof {
        assert(s@.take(0) =~= Seq::<char>::empty());
    }
    while i < s.len()
        invariant
            0 <= i <= s@.len(),
            pieces(s@.take(i as int), a, b).len() >= 1,
            cur@ == pieces(s@.take(i as int), a, b).last(),
            views_of(done@) == nonempty_only(pieces(s@.take(i as int), a, b).drop_last()),
        decreases s@.len() - i,
    {
        let c = s[i];
        let ghost p = pieces(s@.take(i as int), a, b);
        proof {
            assert(s@.take(i + 1).drop_last() =~= s@.take(i as int));
            assert(s@.take(i + 1).last() == c);
        }
        if c == a || c == b {
            let ghost q = p.push(Seq::<char>::empty());
            proof {
                assert(q.drop_last() =~= p);
                assert(p =~= p.drop_last().push(p.last()));
            }
            if cur.len() > 0 {
                let ghost before = done@;
                done.push(cur);
                assert(views_of(done@) =~= views_of(before).push(p.last()));
            }
            cur = Vec::new();
            proof {
                assert(cur@ =~= Seq::<char>::empty());
            }
        } else {
            cur.push(c);
            let ghost q = p.update(p.len() - 1, p.last().push(c));
            proof {
                assert(q.drop_last() =~= p.drop_last());
            }
        }
        i = i + 1;
    }
    proof {
        let p = pieces(s@.take(i as int), a, b);
        assert(s@.take(i as int) =~= s@);
        assert(p =~= p.drop_last().push(p.last()));
    }
    if cur.len() > 0 {
        let ghost before = done@;
        done.push(cur);
        assert(views_of(done@) =~= views_of(before).push(cur@));
    }
    assert(views_of(done@) =~= tokens(s@, a, b));
    done
}


pub open spec fn is_digit(c: char) -> bool {
    '0' <= c <= '9'
}

pub open spec fn all_digits(t: Seq<char>) -> bool {
    forall|i: int| 0 <= i < t.len() ==> is_digit(#[trigger] t[i])
}

pub open spec fn digit_value(c: char) -> int {
    (c as u32) as int - ('0' as u32) as int
}

/// The number that the digits of `t` spell in base ten.
pub open spec fn decimal_value(t: Seq<char>) -> int
    decreases t.len(),
{
    if t.len() == 0 {
        0
    } else {
        decimal_value(t.drop_last()) * 10 + digit_value(t.last())
    }
}

pub proof fn lemma_decimal_nonneg(t: Seq<char>)
    requires
        all_digits(t),
    ensures
        decimal_value(t) >= 0,
    decreases t.len(),
{
    if t.len() > 0 {
        lemma_decimal_nonneg(t.drop_last());
    }
}

/// A longer run of digits spells a number at least as large as its prefix.
pub proof fn lemma_decimal_prefix(t: Seq<char>, k: int)
    requires
        all_digits(t),
        0 <= k <= t.len(),
    ensures
        decimal_value(t.take(k)) <= decimal_value(t),
    decreases t.len(),
{
    if k < t.len() {
        let u = t.drop_last();
        lemma_decimal_prefix(u, k);
        lemma_decimal_nonneg(u);
        assert(u.take(k) =~= t.take(k));
    } else {
        assert(t.take(k) =~= t);
    }
}

/// The value of the digits `t[from..to]`, or `None` where a character there
/// is not a digit or the value exceeds `u64::MAX`.
pub fn decimal_u64(t: &[char], from: usize, to: usize) -> (r: Option<u64>)
    requires
        from <= to <= t@.len(),
    ensures
        r == (if all_digits(t@.subrange(from as int, to as int)) && decimal_value(
            t@.subrange(from as int, to as int),
        ) <= u64::MAX {
            Some(decimal_value(t@.subrange(from as int, to as int)) as u64)
        } else {
            None::<u64>
        }),
{
    let ghost whole = t@.subrange(from as int, to as int);
    let mut m: u64 = 0;
    let mut j: usize = from;
    assert(t@.subrange(from as int, from as int) =~= Seq::<char>::empty());
    while j < to
        invariant
            from <= j <= to <= t@.len(),
            whole == t@.subrange(from as int, to as int),
            all_digits(t@.subrange(from as int, j as int)),
            m as int == decimal_value(t@.subrange(from as int, j as int)),
        decreases to - j,
    {
        let c = t[j];
        let ghost prefix = t@.subrange(from as int, j as int + 1);
        proof {
            assert(prefix.drop_last() =~= t@.subrange(from as int, j as int));
            assert(prefix =~= whole.take(j - from + 1));
        }
        if !('0' <= c && c <= '9') {
            proof {
                assert(whole[j - from] == c);
            }
            return None;
        }
        let d: u64 = (c as u32 - '0' as u32) as u64;
        let next = match m.checked_mul(10) {
            Some(x) => x.checked_add(d),
            None => None,
        };
        match next {
            Some(y) => {
                m = y;
            },
            None => {
                proof {
                    if all_digits(whole) {
                        lemma_decimal_prefix(whole, j - from + 1);
                    }
                }
                return None;
            },
        }
        j = j + 1;
    }
    Some(m)
}


/// Where the digits of a signed numeral start: after a leading `+` or `-`.
pub open spec fn sign_len(t: Seq<char>) -> int {
    if t.len() > 0 && (t[0] == '-' || t[0] == '+') {
        1
    } else {
        0
    }
}

/// The integer that `t` spells as `i64::from_str` reads it: an optional
/// `+` or `-`, then at least one digit, with a value inside `i64`.
pub open spec fn int_value(t: Seq<char>) -> Option<i64> {
    let d = t.skip(sign_len(t));
    let v = if t.len() > 0 && t[0] == '-' {
        -decimal_value(d)
    } else {
        decimal_value(d)
    };
    if d.len() > 0 && all_digits(d) && i64::MIN <= v <= i64::MAX {
        Some(v as i64)
    } else {
        None
    }
}

/// Reads a signed decimal integer.
pub fn parse_i64(t: &[char]) -> (r: Option<i64>)
    ensures
        r == int_value(t@),
{
    let n = t.len();
    let neg = n > 0 && t[0] == '-';
    let start: usize = if n > 0 && (t[0] == '-' || t[0] == '+') {
        1
    } else {
        0
    };
    assert(t@.skip(start as int) =~= t@.subrange(start as int, n as int));
    if start == n {
        return None;
    }
    match decimal_u64(t, start, n) {
        None => {
            proof {
                let d = t@.skip(start as int);
                if all_digits(d) {
                    assert(decimal_value(d) > u64::MAX);
                }
            }
            None
        },
        Some(m) => {
            proof {
                lemma_decimal_nonneg(t@.skip(start as int));
            }
            if neg {
                if m <= 9223372036854775808 {
                    if m == 9223372036854775808 {
                        Some(i64::MIN)
                    } else {
                        Some(-(m as i64))
                    }
                } else {
                    None
                }
            } else if m <= 9223372036854775807 {
                Some(m as i64)
            } else {
                None
            }
        },
    }
}


/// The number of digits that `t` starts with.
pub open spec fn lead_digits(t: Seq<char>) -> int
    decreases t.len(),
{
    if t.len() > 0 && is_digit(t[0]) {
        1 + lead_digits(t.drop_first())
    } else {
        0
    }
}

pub proof fn lemma_lead_digits(t: Seq<char>, k: int)
    requires
        0 <= k <= t.len(),
        all_digits(t.take(k)),
        k == t.len() || !is_digit(t[k]),
    ensures
        lead_digits(t) == k,
    decreases k,
{
    if k > 0 {
        assert(t.take(k)[0] == t[0]);
        let u = t.drop_first();
        assert forall|i: int| 0 <= i < k - 1 implies is_digit(#[trigger] u.take(k - 1)[i]) by {
            assert(u.take(k - 1)[i] == t.take(k)[i + 1]);
        }
        lemma_lead_digits(u, k - 1);
    }
}

/// What follows the `.` of a decimal numeral; empty where there is none.
pub open spec fn fraction_digits(t: Seq<char>) -> Seq<char> {
    let k = lead_digits(t);
    if k < t.len() {
        t.skip(k + 1)
    } else {
        Seq::<char>::empty()
    }
}

/// `t` is digits, optionally followed by a `.` and more digits, with at
/// least one digit in all: `5`, `0.5`, `.5` and `5.`.
pub open spec fn is_decimal(t: Seq<char>) -> bool {
    let k = lead_digits(t);
    ||| k == t.len() && k > 0
    ||| k < t.len() && t[k] == '.' && all_digits(t.skip(k + 1)) && t.len() > 1
}

/// `f` without its trailing zeros.
pub open spec fn trim_zeros(f: Seq<char>) -> Seq<char>
    decreases f.len(),
{
    if f.len() > 0 && f.last() == '0' {
        trim_zeros(f.drop_last())
    } else {
        f
    }
}

/// The significant digits of a decimal numeral: its integer digits, then
/// its fraction digits without their trailing zeros.
pub open spec fn significand(t: Seq<char>) -> Seq<char> {
    t.take(lead_digits(t)) + trim_zeros(fraction_digits(t))
}

/// The length of the longest prefix of the digits `d` whose value fits in
/// `u64`.
pub open spec fn fit_len(d: Seq<char>) -> int
    decreases d.len(),
{
    if d.len() == 0 || decimal_value(d) <= u64::MAX {
        d.len() as int
    } else {
        fit_len(d.drop_last())
    }
}

/// A decimal numeral read as a triple: the value of the longest prefix of its
/// significant digits that fits in `u64`, how many fraction digits the
/// significand holds, and how many digits at its end did not fit and were
/// cut off. The numeral is worth about `m * 10^(cut - frac)`: exactly where
/// nothing was cut, else less by under one unit of the last digit kept
/// (`0.50` gives `(5, 1, 0)`; `0.99999999999999999999` gives
/// `(9999999999999999999, 20, 1)`). `None` where `t` is no decimal numeral.
pub open spec fn decimal_parts(t: Seq<char>) -> Option<(u64, usize, usize)> {
    let d = significand(t);
    let l = fit_len(d);
    if is_decimal(t) {
        Some(
            (
                decimal_value(d.take(l)) as u64,
                trim_zeros(fraction_digits(t)).len() as usize,
                (d.len() - l) as usize,
            ),
        )
    } else {
        None
    }
}

pub proof fn lemma_fit_len(d: Seq<char>, j: int)
    requires
        all_digits(d),
        0 <= j <= d.len(),
        decimal_value(d.take(j)) <= u64::MAX,
        j == d.len() || decimal_value(d.take(j + 1)) > u64::MAX,
    ensures
        fit_len(d) == j,
    decreases d.len(),
{
    if j == d.len() {
        assert(d.take(j) =~= d);
    } else {
        lemma_decimal_prefix(d, j + 1);
        let u = d.drop_last();
        assert(u.take(j) =~= d.take(j));
        if j + 1 < d.len() {
            assert(u.take(j + 1) =~= d.take(j + 1));
        }
        lemma_fit_len(u, j);
    }
}

pub proof fn lemma_fit_len_bounds(d: Seq<char>)
    ensures
        0 <= fit_len(d) <= d.len(),
        decimal_value(d.take(fit_len(d))) <= u64::MAX,
    decreases d.len(),
{
    if d.len() > 0 && decimal_value(d) > u64::MAX {
        let u = d.drop_last();
        lemma_fit_len_bounds(u);
        assert(u.take(fit_len(u)) =~= d.take(fit_len(d)));
    } else {
        assert(d.take(d.len() as int) =~= d);
        if d.len() == 0 {
            assert(d =~= Seq::<char>::empty());
        }
    }
}

/// The value and length of the longest prefix of the digits `d` that fits
/// in `u64`.
fn fitting_prefix(d: &[char]) -> (r: (u64, usize))
    requires
        all_digits(d@),
    ensures
        r.1 as int == fit_len(d@),
        r.0 as int == decimal_value(d@.take(r.1 as int)),
{
    let mut m: u64 = 0;
    let mut j: usize = 0;
    assert(d@.take(0) =~= Seq::<char>::empty());
    while j < d.len()
        invariant
            0 <= j <= d@.len(),
            all_digits(d@),
            m as int == decimal_value(d@.take(j as int)),
        decreases d@.len() - j,
    {
        let c = d[j];
        assert(d@.take(j + 1).drop_last() =~= d@.take(j as int));
        assert(d@.take(j + 1).last() == c);
        let v: u64 = (c as u32 - '0' as u32) as u64;
        let next = match m.checked_mul(10) {
            Some(x) => x.checked_add(v),
            None => None,
        };
        match next {
            Some(y) => {
                m = y;
            },
            None => {
                proof {
                    lemma_fit_len(d@, j as int);
                }
                return (m, j);
            },
        }
        j = j + 1;
    }
    proof {
        lemma_fit_len(d@, j as int);
    }
    (m, j)
}

/// Appends `src[from..to]` to `dst`.
fn push_range(dst: &mut Vec<char>, src: &[char], from: usize, to: usize)
    requires
        from <= to <= src@.len(),
    ensures
        final(dst)@ == old(dst)@ + src@.subrange(from as int, to as int),
{
    let ghost start = dst@;
    let mut j: usize = from;
    while j < to
        invariant
            from <= j <= to <= src@.len(),
            dst@ == start + src@.subrange(from as int, j as int),
        decreases to - j,
    {
        dst.push(src[j]);
        j = j + 1;
        assert(dst@ =~= start + src@.subrange(from as int, j as int));
    }
}

/// Reads a decimal numeral into the triple that `decimal_parts` gives.
pub fn parse_decimal(t: &[char]) -> (r: Option<(u64, usize, usize)>)
    ensures
        r == decimal_parts(t@),
{
    let n = t.len();
    let mut k: usize = 0;
    while k < n && '0' <= t[k] && t[k] <= '9'
        invariant
            0 <= k <= n == t@.len(),
            all_digits(t@.take(k as int)),
        decreases n - k,
    {
        k = k + 1;
        assert(t@.take(k as int).drop_last() =~= t@.take(k - 1));
    }
    proof {
        lemma_lead_digits(t@, k as int);
    }
    let frac_start: usize;
    let mut end: usize;
    if k == n {
        if n == 0 {
            return None;
        }
        frac_start = n;
        end = n;
        proof {
            assert(t@.subrange(n as int, n as int) =~= Seq::<char>::empty());
        }
    } else {
        if t[k] != '.' || n == 1 {
            return None;
        }
        let mut j: usize = k + 1;
        while j < n
            invariant
                k + 1 <= j <= n == t@.len(),
                lead_digits(t@) == k,
                t@[k as int] == '.',
                all_digits(t@.subrange(k + 1, j as int)),
            decreases n - j,
        {
            if !('0' <= t[j] && t[j] <= '9') {
                proof {
                    assert(t@.skip(k + 1)[j - k - 1] == t[j as int]);
                    assert(!is_digit(t@.skip(k + 1)[j - k - 1]));
                }
                return None;
            }
            j = j + 1;
            assert(t@.subrange(k + 1, j as int).drop_last() =~= t@.subrange(k + 1, j - 1));
        }
        assert(t@.subrange(k + 1, n as int) =~= t@.skip(k + 1));
        frac_start = k + 1;
        end = n;
        while end > frac_start && t[end - 1] == '0'
            invariant
                frac_start <= end <= n == t@.len(),
                frac_start == k + 1,
                lead_digits(t@) == k,
                t@[k as int] == '.',
                n > 1,
                all_digits(t@.skip(k + 1)),
                trim_zeros(t@.skip(k + 1)) == trim_zeros(t@.subrange(k + 1, end as int)),
            decreases end,
        {
            assert(t@.subrange(k + 1, end as int).drop_last() =~= t@.subrange(
                k + 1,
                end - 1,
            ));
            end = end - 1;
        }
    }
    let ghost g = t@.subrange(frac_start as int, end as int);
    assert(trim_zeros(g) == g);
    assert(g == trim_zeros(fraction_digits(t@)));
    let mut ds: Vec<char> = Vec::new();
    push_range(&mut ds, t, 0, k);
    push_range(&mut ds, t, frac_start, end);
    assert(ds@ =~= t@.take(k as int) + g);
    assert forall|i: int| 0 <= i < ds@.len() implies is_digit(#[trigger] ds@[i]) by {
        if i < k {
            assert(t@.take(k as int)[i] == ds@[i]);
        } else {
            assert(t@.skip(k + 1)[frac_start + i - k - k - 1] == ds@[i]);
        }
    }
    assert(ds@ == significand(t@));
    proof {
        lemma_fit_len_bounds(ds@);
    }
    let (m, l) = fitting_prefix(ds.as_slice());
    Some((m, end - frac_start, ds.len() - l))
}


/// The characters of `s`, in order.
pub fn chars_of(s: &str) -> (r: Vec<char>)
    ensures
        r@ == s@,
{
    broadcast use vstd::string::group_string_axioms;

    let mut it = s.chars();
    let mut out: Vec<char> = Vec::new();
    loop
        invariant
            out@ + it.remaining() == s@,
        decreases s@.len() - out@.len(),
    {
        let ghost before = it.remaining();
        match it.next() {
            Some(c) => {
                out.push(c);
                assert(out@ + it.remaining() =~= s@) by {
                    assert(before =~= seq![c] + before.drop_first());
                }
            },
            None => {
                assert(out@ =~= s@);
                return out;
            },
        }
    }
}

/// An exponent mark of a numeral.
pub open spec fn is_exp_mark(c: char) -> bool {
    c == 'e' || c == 'E'
}

/// Where the first exponent mark of `t` stands; `t.len()` where none does.
pub open spec fn exp_mark_at(t: Seq<char>) -> int
    decreases t.len(),
{
    if t.len() > 0 && !is_exp_mark(t[0]) {
        1 + exp_mark_at(t.drop_first())
    } else {
        0
    }
}

pub proof fn lemma_exp_mark_bounds(t: Seq<char>)
    ensures
        0 <= exp_mark_at(t) <= t.len(),
    decreases t.len(),
{
    if t.len() > 0 && !is_exp_mark(t[0]) {
        lemma_exp_mark_bounds(t.drop_first());
    }
}

pub proof fn lemma_exp_mark_at(t: Seq<char>, k: int)
    requires
        0 <= k <= t.len(),
        forall|i: int| 0 <= i < k ==> !is_exp_mark(#[trigger] t[i]),
        k == t.len() || is_exp_mark(t[k]),
    ensures
        exp_mark_at(t) == k,
    decreases k,
{
    if k > 0 {
        let u = t.drop_first();
        assert(!is_exp_mark(t[0]));
        assert forall|i: int| 0 <= i < k - 1 implies !is_exp_mark(#[trigger] u[i]) by {
            assert(u[i] == t[i + 1]);
        }
        lemma_exp_mark_at(u, k - 1);
    }
}

/// Ten to the power `n`.
pub open spec fn pow10(n: nat) -> int
    decreases n,
{
    if n == 0 {
        1
    } else {
        10 * pow10((n - 1) as nat)
    }
}

pub proof fn lemma_pow10_grows(a: nat, b: nat)
    requires
        a <= b,
    ensures
        1 <= pow10(a) <= pow10(b),
    decreases b,
{
    if b > 0 {
        if a < b {
            lemma_pow10_grows(a, (b - 1) as nat);
        } else {
            lemma_pow10_grows((a - 1) as nat, (b - 1) as nat);
        }
    }
}

pub proof fn lemma_pow10_twenty()
    ensures
        pow10(20) == 100000000000000000000,
{
    reveal_with_fuel(pow10, 21);
}

/// `m / 10^s` with the common factors of ten taken out of both.
pub open spec fn normalize(m: nat, s: nat) -> (nat, nat)
    decreases s,
{
    if s > 0 && m % 10 == 0 {
        normalize(m / 10, (s - 1) as nat)
    } else {
        (m, s)
    }
}

pub proof fn lemma_normalize_bounds(m: nat, s: nat)
    ensures
        normalize(m, s).0 <= m,
        normalize(m, s).1 <= s,
    decreases s,
{
    if s > 0 && m % 10 == 0 {
        lemma_normalize_bounds(m / 10, (s - 1) as nat);
    }
}

/// The exponent of a rate whose text after an optional `+` is `b`: zero
/// without an exponent mark, else the signed integer after the mark.
pub open spec fn exponent_of(b: Seq<char>) -> Option<int> {
    let p = exp_mark_at(b);
    if p == b.len() {
        Some(0)
    } else {
        match int_value(b.skip(p + 1)) {
            Some(x) => Some(x as int),
            None => None,
        }
    }
}

/// A sample rate as `f64::from_str` writes a non-negative finite number:
/// an optional `+`, a decimal numeral, and an optional exponent (`e` or `E`,
/// then a signed integer). The value is given as `mantissa / 10^scale`,
/// with no factor of ten common to both (`0.50`, `5e-1` and `+50e-2` all
/// give `(5, 1)`). It is exact where the significant digits fit in `u64`;
/// else the digits past the longest prefix that fits are cut off
/// (`0.99999999999999999999` gives `(9999999999999999999, 19)`). `None`
/// where `t` has another form (a sign `-`, `inf`, `NaN`), where the
/// exponent falls outside `i64`, or where the value exceeds `u64::MAX`.
pub open spec fn rate_parts(t: Seq<char>) -> Option<(u64, usize)> {
    let b = t.skip(if t.len() > 0 && t[0] == '+' { 1 } else { 0 });
    match (decimal_parts(b.take(exp_mark_at(b))), exponent_of(b)) {
        (Some(d), Some(x)) => {
            let sr = d.1 as int - d.2 as int - x;
            if d.0 == 0 {
                Some((0u64, 0usize))
            } else if sr >= 0 {
                let n = normalize(d.0 as nat, sr as nat);
                if sr <= usize::MAX {
                    Some((n.0 as u64, n.1 as usize))
                } else {
                    None
                }
            } else {
                let v = d.0 * pow10((-sr) as nat);
                if v <= u64::MAX {
                    Some((v as u64, 0usize))
                } else {
                    None
                }
            }
        },
        _ => None,
    }
}

/// Reads the sample rate written in `t[from..]`.
#[verifier::rlimit(40)]
pub fn parse_sample_rate(t: &[char], from: usize) -> (r: Option<(u64, usize)>)
    requires
        from <= t@.len(),
    ensures
        r == rate_parts(t@.skip(from as int)),
{
    let n = t.len();
    let ghost u = t@.skip(from as int);
    let start: usize = if from < n && t[from] == '+' {
        from + 1
    } else {
        from
    };
    let ghost b = t@.skip(start as int);
    assert(b =~= u.skip(if u.len() > 0 && u[0] == '+' { 1 } else { 0 }));
    let mut p: usize = start;
    while p < n && t[p] != 'e' && t[p] != 'E'
        invariant
            start <= p <= n == t@.len(),
            b == t@.skip(start as int),
            forall|i: int| 0 <= i < p - start ==> !is_exp_mark(#[trigger] b[i]),
        decreases n - p,
    {
        p = p + 1;
    }
    proof {
        lemma_exp_mark_at(b, p - start);
    }
    let mut mant: Vec<char> = Vec::new();
    push_range(&mut mant, t, start, p);
    assert(mant@ =~= b.take(p - start));
    let d = match parse_decimal(mant.as_slice()) {
        Some(d) => d,
        None => {
            return None;
        },
    };
    let x: i64 = if p == n {
        0
    } else {
        let mut ex: Vec<char> = Vec::new();
        push_range(&mut ex, t, p + 1, n);
        assert(ex@ =~= b.skip(p - start + 1));
        match parse_i64(ex.as_slice()) {
            Some(x) => x,
            None => {
                return None;
            },
        }
    };
    assert(exponent_of(b) == Some(x as int));
    let m0 = d.0;
    if m0 == 0 {
        return Some((0, 0));
    }
    let sr: i128 = d.1 as i128 - d.2 as i128 - x as i128;
    if sr >= 0 {
        if sr > usize::MAX as i128 {
            return None;
        }
        let mut m: u64 = m0;
        let mut s: usize = sr as usize;
        while s > 0 && m % 10 == 0
            invariant
                sr >= 0,
                normalize(m as nat, s as nat) == normalize(m0 as nat, sr as nat),
            decreases s,
        {
            m = m / 10;
            s = s - 1;
        }
        Some((m, s))
    } else {
        if sr < -20 {
            proof {
                lemma_pow10_twenty();
                lemma_pow10_grows(20, (-sr) as nat);
                let c = pow10((-sr) as nat);
                assert(m0 as int * c >= c) by (nonlinear_arith)
                    requires
                        m0 >= 1,
                        c >= 1,
                ;
            }
            return None;
        }
        let k: u64 = (-sr) as u64;
        let mut v: u64 = m0;
        let mut j: u64 = 0;
        let ghost big = m0 as int * pow10(k as nat);
        assert(rate_parts(u) == (if big <= u64::MAX {
            Some((big as u64, 0usize))
        } else {
            None
        }));
        while j < k
            invariant
                0 <= j <= k,
                big == m0 as int * pow10(k as nat),
                u == t@.skip(from as int),
                rate_parts(u) == (if big <= u64::MAX {
                    Some((big as u64, 0usize))
                } else {
                    None
                }),
                k as int == -sr,
                m0 >= 1,
                v as int == m0 as int * pow10(j as nat),
            decreases k - j,
        {
            let ghost pj = pow10(j as nat);
            assert(pow10((j + 1) as nat) == 10 * pj);
            assert(m0 as int * pow10((j + 1) as nat) == v as int * 10) by (nonlinear_arith)
                requires
                    pow10((j + 1) as nat) == 10 * pj,
                    v as int == m0 as int * pj,
            ;
            match v.checked_mul(10) {
                Some(w) => {
                    v = w;
                },
                None => {
                    proof {
                        lemma_pow10_grows((j + 1) as nat, k as nat);
                        let a = pow10((j + 1) as nat);
                        let c = pow10(k as nat);
                        assert(m0 as int * a <= m0 as int * c) by (nonlinear_arith)
                            requires
                                a <= c,
                                m0 >= 1,
                        ;
                    }
                    return None;
                },
            }
            j = j + 1;
        }
        Some((v, 0))
    }
}

/// `t` is written as a rate: an optional `+`, a decimal numeral, and an
/// optional exponent whose value fits in `i64`.
pub open spec fn is_rate_numeral(t: Seq<char>) -> bool {
    let b = t.skip(if t.len() > 0 && t[0] == '+' { 1 } else { 0 });
    is_decimal(b.take(exp_mark_at(b))) && exponent_of(b) is Some
}

/// The power of ten that scales the significant digits of a rate numeral:
/// its exponent less the number of its fraction digits.
pub open spec fn rate_exponent(t: Seq<char>) -> int {
    let b = t.skip(if t.len() > 0 && t[0] == '+' { 1 } else { 0 });
    let mt = b.take(exp_mark_at(b));
    exponent_of(b)->0 - trim_zeros(fraction_digits(mt)).len()
}

/// The value that a rate numeral writes, `D * 10^e` with `D` the value of
/// its significant digits and `e` its `rate_exponent`, is at most one.
pub open spec fn at_most_one(t: Seq<char>) -> bool {
    let b = t.skip(if t.len() > 0 && t[0] == '+' { 1 } else { 0 });
    let big_d = decimal_value(significand(b.take(exp_mark_at(b))));
    let e = rate_exponent(t);
    if e >= 0 {
        big_d * pow10(e as nat) <= 1
    } else {
        big_d <= pow10((-e) as nat)
    }
}

pub proof fn lemma_pow10_add(a: nat, b: nat)
    ensures
        pow10(a + b) == pow10(a) * pow10(b),
    decreases a,
{
    if a > 0 {
        lemma_pow10_add((a - 1) as nat, b);
        assert(pow10(a + b) == 10 * pow10((a - 1 + b) as nat));
        let p = pow10((a - 1) as nat);
        let q = pow10(b);
        assert(10 * (p * q) == (10 * p) * q) by (nonlinear_arith);
    }
}

/// Cutting digits off the end of a run of digits divides its value by at
/// least ten per digit cut.
pub proof fn lemma_cut_digits(d: Seq<char>, l: int)
    requires
        all_digits(d),
        0 <= l <= d.len(),
    ensures
        decimal_value(d.take(l)) * pow10((d.len() - l) as nat) <= decimal_value(d),
    decreases d.len(),
{
    if l == d.len() {
        assert(d.take(l) =~= d);
    } else {
        let u = d.drop_last();
        lemma_cut_digits(u, l);
        assert(u.take(l) =~= d.take(l));
        lemma_decimal_nonneg(d.take(l));
        let a = decimal_value(d.take(l));
        let p = pow10((u.len() - l) as nat);
        assert(pow10((d.len() - l) as nat) == 10 * p);
        assert(d.last() == d[d.len() - 1]);
        assert(digit_value(d.last()) >= 0);
        assert(decimal_value(d) == decimal_value(u) * 10 + digit_value(d.last()));
        assert(a * (10 * p) == 10 * (a * p)) by (nonlinear_arith);
        assert(a * p <= decimal_value(u));
        assert(10 * (a * p) <= 10 * decimal_value(u));
    }
}

pub proof fn lemma_lead_digits_are_digits(t: Seq<char>)
    ensures
        0 <= lead_digits(t) <= t.len(),
        all_digits(t.take(lead_digits(t))),
    decreases t.len(),
{
    if t.len() > 0 && is_digit(t[0]) {
        let u = t.drop_first();
        lemma_lead_digits_are_digits(u);
        let k = lead_digits(t);
        assert forall|i: int| 0 <= i < k implies is_digit(#[trigger] t.take(k)[i]) by {
            if i > 0 {
                assert(t.take(k)[i] == u.take(k - 1)[i - 1]);
            }
        }
    } else {
        assert(t.take(0) =~= Seq::<char>::empty());
    }
}

pub proof fn lemma_trim_zeros_prefix(f: Seq<char>)
    ensures
        trim_zeros(f) =~= f.take(trim_zeros(f).len() as int),
        trim_zeros(f).len() <= f.len(),
    decreases f.len(),
{
    if f.len() > 0 && f.last() == '0' {
        let u = f.drop_last();
        lemma_trim_zeros_prefix(u);
        assert(u.take(trim_zeros(u).len() as int) =~= f.take(trim_zeros(u).len() as int));
    } else {
        assert(f.take(f.len() as int) =~= f);
    }
}

/// The significant digits of a decimal numeral are digits.
pub proof fn lemma_significand_digits(t: Seq<char>)
    requires
        is_decimal(t),
    ensures
        all_digits(significand(t)),
{
    lemma_lead_digits_are_digits(t);
    let k = lead_digits(t);
    let f = fraction_digits(t);
    let g = trim_zeros(f);
    lemma_trim_zeros_prefix(f);
    assert(all_digits(f)) by {
        if k < t.len() {
        } else {
            assert(f.len() == 0);
        }
    }
    let d = significand(t);
    assert forall|i: int| 0 <= i < d.len() implies is_digit(#[trigger] d[i]) by {
        if i < k {
            assert(d[i] == t.take(k)[i]);
        } else {
            assert(d[i] == g[i - k]);
            assert(g[i - k] == f[i - k]);
        }
    }
}

} // verus!
