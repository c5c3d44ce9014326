//! Decimal numerals: the vote count (`i32`) and the popularity score, which
//! is kept as its decimal text and compared by value.
use core::cmp::Ordering;
use vstd::prelude::*;

verus! {

pub open spec fn is_digit(c: char) -> bool {
    '0' <= c && c <= '9'
}

pub open spec fn digit_value(c: char) -> int {
    (c as int) - ('0' as int)
}

pub open spec fn all_digits(s: Seq<char>) -> bool {
    forall|i: int| 0 <= i < s.len() ==> is_digit(#[trigger] s[i])
}

pub open spec fn pow10(n: nat) -> int
    decreases n,
{
    if n == 0 {
        1
    } else {
        10 * pow10((n - 1) as nat)
    }
}

/// The value of a string of decimal digits, most significant first.
pub open spec fn digits_value(s: Seq<char>) -> int
    decreases s.len(),
{
    if s.len() == 0 {
        0
    } else {
        digit_value(s[0]) * pow10((s.len() - 1) as nat) + digits_value(s.drop_first())
    }
}

/// `s` without its leading sign, if it has one.
pub open spec fn unsigned_part(s: Seq<char>) -> Seq<char> {
    if s.len() > 0 && (s[0] == '-' || s[0] == '+') {
        s.drop_first()
    } else {
        s
    }
}

/// What `str::parse::<i32>` accepts: an optional sign, then at least one
/// digit, with a value inside the range of `i32`.
pub open spec fn parse_i32_spec(s: Seq<char>) -> Option<i32> {
    let neg = s.len() > 0 && s[0] == '-';
    let body = unsigned_part(s);
    let v = if neg {
        -digits_value(body)
    } else {
        digits_value(body)
    };
    if body.len() > 0 && all_digits(body) && i32::MIN <= v <= i32::MAX {
        Some(v as i32)
    } else {
        None
    }
}

pub proof fn lemma_pow10_positive(n: nat)
    ensures
        pow10(n) > 0,
    decreases n,
{
    if n > 0 {
        lemma_pow10_positive((n - 1) as nat);
    }
}

pub proof fn lemma_digits_value_push(s: Seq<char>, c: char)
    ensures
        digits_value(s.push(c)) == digits_value(s) * 10 + digit_value(c),
    decreases s.len(),
{
    let t = s.push(c);
    if s.len() == 0 {
        assert(t.drop_first() =~= Seq::<char>::empty());
        assert(t[0] == c);
        assert(pow10(0) == 1);
        assert(digits_value(t.drop_first()) == 0);
        assert(digits_value(s) == 0);
        assert(t.len() == 1);
        assert(digits_value(t) == digit_value(t[0]) * pow10(0) + digits_value(t.drop_first()));
        assert(digits_value(t) == digit_value(c));
    } else {
        assert(t.drop_first() =~= s.drop_first().push(c));
        assert(t[0] == s[0]);
        lemma_digits_value_push(s.drop_first(), c);
        let p = pow10((s.len() - 1) as nat);
        let d = digit_value(s[0]);
        let x = digits_value(s.drop_first());
        assert(pow10(s.len() as nat) == 10 * p);
        assert(digits_value(t) == d * (10 * p) + (x * 10 + digit_value(c)));
        assert(digits_value(s) == d * p + x);
        assert(d * (10 * p) + x * 10 == (d * p + x) * 10) by (nonlinear_arith);
        assert(digits_value(t) == digits_value(s) * 10 + digit_value(c));
    }
}

pub proof fn lemma_digits_value_bounds(s: Seq<char>)
    requires
        all_digits(s),
    ensures
        0 <= digits_value(s) < pow10(s.len() as nat),
    decreases s.len(),
{
    if s.len() > 0 {
        let r = s.drop_first();
        assert(is_digit(s[0]));
        assert(all_digits(r)) by {
            assert forall|i: int| 0 <= i < r.len() implies is_digit(#[trigger] r[i]) by {
                assert(r[i] == s[i + 1]);
            }
        }
        lemma_digits_value_bounds(r);
        lemma_pow10_positive(r.len() as nat);
        let p = pow10(r.len() as nat);
        let d = digit_value(s[0]);
        assert(0 <= d <= 9);
        assert(d * p + p <= 10 * p) by (nonlinear_arith)
            requires
                d <= 9,
                p > 0,
        ;
        assert(d * p >= 0) by (nonlinear_arith)
            requires
                d >= 0,
                p > 0,
        ;
    }
}

/// Leading zeros do not change the value.
pub proof fn lemma_digits_value_leading_zero(s: Seq<char>)
    ensures
        digits_value(seq!['0'].add(s)) == digits_value(s),
{
    let t = seq!['0'].add(s);
    assert(t.drop_first() =~= s);
    assert(t[0] == '0');
    assert(digit_value('0') == 0);
    assert(0 * pow10((t.len() - 1) as nat) == 0);
}

/// Digits appended at the end scale the value by ten each.
pub proof fn lemma_digits_value_trailing_zeros(s: Seq<char>, n: nat)
    ensures
        digits_value(s.add(Seq::new(n, |i: int| '0'))) == digits_value(s) * pow10(n),
    decreases n,
{
    if n > 0 {
        let z = Seq::new((n - 1) as nat, |i: int| '0');
        assert(s.add(Seq::new(n, |i: int| '0')) =~= s.add(z).push('0'));
        lemma_digits_value_trailing_zeros(s, (n - 1) as nat);
        lemma_digits_value_push(s.add(z), '0');
        assert(digit_value('0') == 0);
        assert(pow10(n) == 10 * pow10((n - 1) as nat));
        let v = digits_value(s);
        let p = pow10((n - 1) as nat);
        assert(v * p * 10 == v * (10 * p)) by (nonlinear_arith);
    } else {
        assert(s.add(Seq::new(n, |i: int| '0')) =~= s);
    }
}

/// Two digit strings of one length compare as their first differing digit.
pub proof fn lemma_digits_value_first_difference(x: Seq<char>, y: Seq<char>, i: int)
    requires
        x.len() == y.len(),
        all_digits(x),
        all_digits(y),
        0 <= i < x.len(),
        x.subrange(0, i) == y.subrange(0, i),
        digit_value(x[i]) < digit_value(y[i]),
    ensures
        digits_value(x) < digits_value(y),
    decreases i,
{
    let xr = x.drop_first();
    let yr = y.drop_first();
    assert(all_digits(xr)) by {
        assert forall|j: int| 0 <= j < xr.len() implies is_digit(#[trigger] xr[j]) by {
            assert(xr[j] == x[j + 1]);
        }
    }
    assert(all_digits(yr)) by {
        assert forall|j: int| 0 <= j < yr.len() implies is_digit(#[trigger] yr[j]) by {
            assert(yr[j] == y[j + 1]);
        }
    }
    if i == 0 {
        lemma_digits_value_bounds(xr);
        lemma_digits_value_bounds(yr);
        let p = pow10(xr.len() as nat);
        let dx = digit_value(x[0]);
        let dy = digit_value(y[0]);
        assert(dx * p + p <= dy * p) by (nonlinear_arith)
            requires
                dx + 1 <= dy,
                p > 0,
        ;
    } else {
        assert(x[0] == x.subrange(0, i)[0]);
        assert(y[0] == y.subrange(0, i)[0]);
        assert(xr.subrange(0, i - 1) =~= x.subrange(0, i).drop_first());
        assert(yr.subrange(0, i - 1) =~= y.subrange(0, i).drop_first());
        lemma_digits_value_first_difference(xr, yr, i - 1);
    }
}

/// Parses a vote count as `str::parse::<i32>` does.
pub fn parse_i32(s: &str) -> (r: Option<i32>)
    ensures
        r == parse_i32_spec(s@),
{
    let n = s.unicode_len();
    let mut start: usize = 0;
    let mut neg = false;
    if n > 0 {
        let c = s.get_char(0);
        if c == '-' {
            neg = true;
            start = 1;
        } else if c == '+' {
            start = 1;
        }
    }
    let ghost body = s@.subrange(start as int, n as int);
    assert(body =~= unsigned_part(s@));
    if start == n {
        return None;
    }
    // magnitude of the digits read so far; 2^31 is the largest that can still fit
    let mut acc: i64 = 0;
    let mut i: usize = start;
    while i < n
        invariant
            start <= i <= n,
            n == s@.len(),
            body == s@.subrange(start as int, n as int),
            body == unsigned_part(s@),
            neg == (s@.len() > 0 && s@[0] == '-'),
            all_digits(s@.subrange(start as int, i as int)),
            acc == digits_value(s@.subrange(start as int, i as int)),
            0 <= acc <= 2147483648,
        decreases n - i,
    {
        let c = s.get_char(i);
        if !('0' <= c && c <= '9') {
            assert(!all_digits(body)) by {
                assert(body[i - start] == c);
                assert(!is_digit(c));
            }
            assert(parse_i32_spec(s@) is None);
            return None;
        }
        let d = (c as u32 - '0' as u32) as i64;
        proof {
            assert(s@.subrange(start as int, i + 1) =~= s@.subrange(start as int, i as int).push(c));
            lemma_digits_value_push(s@.subrange(start as int, i as int), c);
        }
        acc = acc * 10 + d;
        if acc > 2147483648 {
            proof {
                if all_digits(body) {
                    lemma_prefix_value_bound(body, (i + 1 - start) as int);
                    assert(body.subrange(0, (i + 1 - start) as int) =~= s@.subrange(start as int, i + 1));
                    assert(digits_value(body) > 2147483648);
                }
                assert(parse_i32_spec(s@) is None);
            }
            return None;
        }
        i = i + 1;
    }
    if neg {
        Some((-acc) as i32)
    } else if acc <= 2147483647 {
        Some(acc as i32)
    } else {
        None
    }
}

/// A prefix of digits is worth no more than the whole digit string, when the
/// rest is digits too.
proof fn lemma_prefix_value_bound(s: Seq<char>, k: int)
    requires
        0 <= k <= s.len(),
        all_digits(s),
    ensures
        digits_value(s.subrange(0, k)) <= digits_value(s),
    decreases s.len() - k,
{
    if k == s.len() {
        assert(s.subrange(0, k) =~= s);
    } else {
        let t = s.subrange(0, k + 1);
        let u = s.subrange(0, k);
        assert(all_digits(u)) by {
            assert forall|i: int| 0 <= i < u.len() implies is_digit(#[trigger] u[i]) by {
                assert(u[i] == s[i]);
            }
        }
        assert(all_digits(t)) by {
            assert forall|i: int| 0 <= i < t.len() implies is_digit(#[trigger] t[i]) by {
                assert(t[i] == s[i]);
            }
        }
        assert(t =~= u.push(s[k]));
        lemma_digits_value_push(u, s[k]);
        lemma_digits_value_bounds(u);
        assert(is_digit(s[k]));
        lemma_prefix_value_bound(s, k + 1);
    }
}


pub open spec fn zeros(n: nat) -> Seq<char> {
    Seq::new(n, |i: int| '0')
}

pub open spec fn int_cmp(x: int, y: int) -> Ordering {
    if x < y {
        Ordering::Less
    } else if x == y {
        Ordering::Equal
    } else {
        Ordering::Greater
    }
}

/// Index of the first `'.'` of `s`, or its length when it has none.
pub open spec fn dot_index(s: Seq<char>) -> int
    decreases s.len(),
{
    if s.len() == 0 {
        0
    } else if s[0] == '.' {
        0
    } else {
        1 + dot_index(s.drop_first())
    }
}

pub open spec fn is_negative(s: Seq<char>) -> bool {
    s.len() > 0 && s[0] == '-'
}

pub open spec fn has_sign(s: Seq<char>) -> bool {
    s.len() > 0 && (s[0] == '-' || s[0] == '+')
}

/// `s` without a leading sign.
pub open spec fn magnitude_part(s: Seq<char>) -> Seq<char> {
    if has_sign(s) {
        s.drop_first()
    } else {
        s
    }
}

pub open spec fn is_exp_mark(c: char) -> bool {
    c == 'e' || c == 'E'
}

/// Index of the first exponent mark of `s`, or its length when it has none.
pub open spec fn exp_index(s: Seq<char>) -> int
    decreases s.len(),
{
    if s.len() == 0 {
        0
    } else if is_exp_mark(s[0]) {
        0
    } else {
        1 + exp_index(s.drop_first())
    }
}

/// The digits and point of a numeral, before its exponent.
pub open spec fn mantissa(s: Seq<char>) -> Seq<char> {
    magnitude_part(s).subrange(0, exp_index(magnitude_part(s)))
}

pub open spec fn has_exponent(s: Seq<char>) -> bool {
    exp_index(magnitude_part(s)) < magnitude_part(s).len()
}

pub open spec fn exponent_text(s: Seq<char>) -> Seq<char> {
    let m = magnitude_part(s);
    if has_exponent(s) {
        m.subrange(exp_index(m) + 1, m.len() as int)
    } else {
        Seq::empty()
    }
}

pub open spec fn int_digits(s: Seq<char>) -> Seq<char> {
    mantissa(s).subrange(0, dot_index(mantissa(s)))
}

pub open spec fn has_dot(s: Seq<char>) -> bool {
    dot_index(mantissa(s)) < mantissa(s).len()
}

pub open spec fn frac_digits(s: Seq<char>) -> Seq<char> {
    let m = mantissa(s);
    if has_dot(s) {
        m.subrange(dot_index(m) + 1, m.len() as int)
    } else {
        Seq::empty()
    }
}

/// An exponent: an optional sign, then at least one digit.
pub open spec fn is_exponent_text(t: Seq<char>) -> bool {
    unsigned_part(t).len() > 0 && all_digits(unsigned_part(t))
}

/// The largest exponent told apart; larger ones saturate to it.
pub open spec fn exponent_cap() -> int {
    99999
}

/// The value of an exponent, saturated to `exponent_cap()` either way.
pub open spec fn exponent_value(t: Seq<char>) -> int {
    let v = digits_value(unsigned_part(t));
    let c = if v > exponent_cap() {
        exponent_cap()
    } else {
        v
    };
    if t.len() > 0 && t[0] == '-' {
        -c
    } else {
        c
    }
}

/// The exponent of a numeral; zero when it has none.
pub open spec fn exponent(s: Seq<char>) -> int {
    if has_exponent(s) {
        exponent_value(exponent_text(s))
    } else {
        0
    }
}

/// A finite numeral as `str::parse::<f32>` reads one:
/// `[+-]?(D+(.D*)?|.D+)([eE][+-]?D+)?`.
pub open spec fn is_finite_text(s: Seq<char>) -> bool {
    &&& all_digits(int_digits(s))
    &&& all_digits(frac_digits(s))
    &&& int_digits(s).len() + frac_digits(s).len() > 0
    &&& has_exponent(s) ==> is_exponent_text(exponent_text(s))
}

/// `m` spells the word whose lower- and upper-case letters are `lo` and
/// `up`, each letter in either case.
pub open spec fn spells(m: Seq<char>, lo: Seq<char>, up: Seq<char>) -> bool {
    &&& m.len() == lo.len()
    &&& forall|i: int| 0 <= i < m.len() ==> m[i] == lo[i] || m[i] == up[i]
}

/// Not-a-number, with or without a sign, in any case.
pub open spec fn is_nan_text(s: Seq<char>) -> bool {
    spells(magnitude_part(s), "nan"@, "NAN"@)
}

/// An infinity, with or without a sign, in any case.
pub open spec fn is_inf_text(s: Seq<char>) -> bool {
    spells(magnitude_part(s), "inf"@, "INF"@) || spells(magnitude_part(s), "infinity"@, "INFINITY"@)
}

/// What `str::parse::<f32>` accepts: a finite numeral, an infinity or
/// not-a-number.
pub open spec fn is_float_text(s: Seq<char>) -> bool {
    is_finite_text(s) || is_inf_text(s) || is_nan_text(s)
}

/// Where a float stands in the order of values: not-a-number first, then
/// negative infinity, the finite values, positive infinity.
pub open spec fn float_rank(s: Seq<char>) -> int {
    if is_nan_text(s) {
        0
    } else if is_inf_text(s) {
        if is_negative(s) {
            1
        } else {
            3
        }
    } else {
        2
    }
}

/// The power of ten that divides the digits of a numeral to give its value.
pub open spec fn neg_exp(s: Seq<char>) -> int {
    frac_digits(s).len() - exponent(s)
}

/// The value of the numeral `s` times `10^k`, for `k` no less than
/// `neg_exp(s)`.
pub open spec fn scaled_value(s: Seq<char>, k: int) -> int {
    let m = digits_value(int_digits(s) + frac_digits(s)) * pow10((k - neg_exp(s)) as nat);
    if is_negative(s) {
        -m
    } else {
        m
    }
}

pub open spec fn common_scale(a: Seq<char>, b: Seq<char>) -> int {
    if neg_exp(a) >= neg_exp(b) {
        neg_exp(a)
    } else {
        neg_exp(b)
    }
}

/// How the values of two finite numerals compare.
pub open spec fn finite_cmp(a: Seq<char>, b: Seq<char>) -> Ordering {
    int_cmp(scaled_value(a, common_scale(a, b)), scaled_value(b, common_scale(a, b)))
}

/// How two floats compare: by `float_rank`, then finite ones by value. All
/// not-a-numbers are equal, and so are infinities of one sign.
pub open spec fn decimal_cmp_spec(a: Seq<char>, b: Seq<char>) -> Ordering {
    if float_rank(a) != float_rank(b) {
        int_cmp(float_rank(a), float_rank(b))
    } else if float_rank(a) == 2 {
        finite_cmp(a, b)
    } else {
        Ordering::Equal
    }
}

proof fn lemma_exp_index(m: Seq<char>, p: int)
    requires
        0 <= p <= m.len(),
        forall|j: int| 0 <= j < p ==> !is_exp_mark(m[j]),
        p < m.len() ==> is_exp_mark(m[p]),
    ensures
        exp_index(m) == p,
    decreases p,
{
    if p > 0 {
        let r = m.drop_first();
        assert forall|j: int| 0 <= j < p - 1 implies !is_exp_mark(r[j]) by {
            assert(r[j] == m[j + 1]);
        }
        if p - 1 < r.len() {
            assert(r[p - 1] == m[p]);
        }
        assert(!is_exp_mark(m[0]));
        lemma_exp_index(r, p - 1);
    }
}

proof fn lemma_dot_index(m: Seq<char>, p: int)
    requires
        0 <= p <= m.len(),
        forall|j: int| 0 <= j < p ==> m[j] != '.',
        p < m.len() ==> m[p] == '.',
    ensures
        dot_index(m) == p,
    decreases p,
{
    if p > 0 {
        let r = m.drop_first();
        assert forall|j: int| 0 <= j < p - 1 implies r[j] != '.' by {
            assert(r[j] == m[j + 1]);
        }
        if p - 1 < r.len() {
            assert(r[p - 1] == m[p]);
        }
        lemma_dot_index(r, p - 1);
    }
}

proof fn lemma_leading_zeros(s: Seq<char>, n: nat)
    ensures
        digits_value(zeros(n) + s) == digits_value(s),
    decreases n,
{
    if n > 0 {
        assert(zeros(n) + s =~= seq!['0'].add(zeros((n - 1) as nat) + s));
        lemma_digits_value_leading_zero(zeros((n - 1) as nat) + s);
        lemma_leading_zeros(s, (n - 1) as nat);
    }
}

proof fn lemma_all_digits_add(a: Seq<char>, b: Seq<char>)
    requires
        all_digits(a),
        all_digits(b),
    ensures
        all_digits(a + b),
{
    assert forall|i: int| 0 <= i < (a + b).len() implies is_digit(#[trigger] (a + b)[i]) by {
        if i < a.len() {
            assert((a + b)[i] == a[i]);
        } else {
            assert((a + b)[i] == b[i - a.len()]);
        }
    }
}

/// The first index in `[from, to)` where `s` has `c`, or `to`.
fn find_char(s: &str, c: char, from: usize, to: usize) -> (r: usize)
    requires
        from <= to <= s@.len(),
    ensures
        from <= r <= to,
        forall|j: int| from <= j < r ==> s@[j] != c,
        r < to ==> s@[r as int] == c,
{
    let mut i = from;
    while i < to && s.get_char(i) != c
        invariant
            from <= i <= to,
            to <= s@.len(),
            forall|j: int| from <= j < i ==> s@[j] != c,
        decreases to - i,
    {
        i = i + 1;
    }
    i
}

/// The first index in `[from, to)` where `s` has an exponent mark, or `to`.
fn find_exp_mark(s: &str, from: usize, to: usize) -> (r: usize)
    requires
        from <= to <= s@.len(),
    ensures
        from <= r <= to,
        forall|j: int| from <= j < r ==> !is_exp_mark(s@[j]),
        r < to ==> is_exp_mark(s@[r as int]),
{
    let mut i = from;
    while i < to && !(s.get_char(i) == 'e' || s.get_char(i) == 'E')
        invariant
            from <= i <= to,
            to <= s@.len(),
            forall|j: int| from <= j < i ==> !is_exp_mark(s@[j]),
        decreases to - i,
    {
        i = i + 1;
    }
    i
}

/// Appends the characters of `s` in `[from, to)` to `ds` when they are all
/// digits.
fn push_digits(s: &str, from: usize, to: usize, ds: &mut Vec<char>) -> (ok: bool)
    requires
        from <= to <= s@.len(),
    ensures
        ok == all_digits(s@.subrange(from as int, to as int)),
        ok ==> final(ds)@ == old(ds)@ + s@.subrange(from as int, to as int),
{
    let ghost before = ds@;
    let mut i = from;
    while i < to
        invariant
            from <= i <= to,
            to <= s@.len(),
            all_digits(s@.subrange(from as int, i as int)),
            ds@ == before + s@.subrange(from as int, i as int),
        decreases to - i,
    {
        let c = s.get_char(i);
        if !('0' <= c && c <= '9') {
            assert(s@.subrange(from as int, to as int)[i - from] == c);
            return false;
        }
        ds.push(c);
        i = i + 1;
        assert(ds@ =~= before + s@.subrange(from as int, i as int));
        assert forall|j: int| 0 <= j < s@.subrange(from as int, i as int).len() implies is_digit(
            #[trigger] s@.subrange(from as int, i as int)[j],
        ) by {
            if j < i - 1 - from {
                assert(s@.subrange(from as int, i as int)[j] == s@.subrange(from as int, i - 1)[j]);
            }
        }
    }
    true
}

/// Splits a decimal numeral into its sign, its digits without the point,
/// and the power of ten that divides them; `None` when `s` is no numeral.
#[verifier::rlimit(40)]
pub fn split_decimal(s: &str) -> (r: Option<(bool, Vec<char>, i128)>)
    ensures
        r is Some <==> is_finite_text(s@),
        r matches Some((neg, ds, k)) ==> {
            &&& neg == is_negative(s@)
            &&& ds@ == int_digits(s@) + frac_digits(s@)
            &&& k == neg_exp(s@)
            &&& -99999 <= k <= usize::MAX as int + 99999
        },
{
    let n = s.unicode_len();
    let mut neg = false;
    let mut start: usize = 0;
    if n > 0 {
        let c = s.get_char(0);
        if c == '-' {
            neg = true;
            start = 1;
        } else if c == '+' {
            start = 1;
        }
    }
    let ghost m = magnitude_part(s@);
    assert(m =~= s@.subrange(start as int, n as int));
    let e = find_exp_mark(s, start, n);
    proof {
        assert forall|j: int| 0 <= j < e - start implies !is_exp_mark(m[j]) by {
            assert(m[j] == s@[start + j]);
        }
        if e < n {
            assert(m[e - start] == s@[e as int]);
        }
        lemma_exp_index(m, e - start);
    }
    let ghost mant = mantissa(s@);
    assert(mant =~= s@.subrange(start as int, e as int));
    let d = find_char(s, '.', start, e);
    proof {
        assert forall|j: int| 0 <= j < d - start implies mant[j] != '.' by {
            assert(mant[j] == s@[start + j]);
        }
        if d < e {
            assert(mant[d - start] == s@[d as int]);
        }
        lemma_dot_index(mant, d - start);
    }
    assert(int_digits(s@) =~= s@.subrange(start as int, d as int));
    let mut ds: Vec<char> = Vec::new();
    if !push_digits(s, start, d, &mut ds) {
        return None;
    }
    let frac_start = if d < e {
        d + 1
    } else {
        e
    };
    assert(frac_digits(s@) =~= s@.subrange(frac_start as int, e as int));
    if !push_digits(s, frac_start, e, &mut ds) {
        return None;
    }
    if d - start + (e - frac_start) == 0 {
        return None;
    }
    let mut exp: i128 = 0;
    if e < n {
        assert(exponent_text(s@) =~= s@.subrange(e + 1, n as int));
        match parse_exponent(s, e + 1, n) {
            Some(v) => {
                exp = v;
            },
            None => {
                return None;
            },
        }
    } else {
        assert(!has_exponent(s@));
    }
    assert(ds@ =~= int_digits(s@) + frac_digits(s@));
    Some((neg, ds, (e - frac_start) as i128 - exp))
}

/// Reads the exponent in `[from, to)` of `s`, saturated.
fn parse_exponent(s: &str, from: usize, to: usize) -> (r: Option<i128>)
    requires
        from <= to <= s@.len(),
    ensures
        r is Some <==> is_exponent_text(s@.subrange(from as int, to as int)),
        r matches Some(v) ==> v == exponent_value(s@.subrange(from as int, to as int)) && -99999
            <= v <= 99999,
{
    let ghost t = s@.subrange(from as int, to as int);
    let mut start = from;
    let mut neg = false;
    if from < to {
        let c = s.get_char(from);
        assert(t[0] == c);
        if c == '-' {
            neg = true;
            start = from + 1;
        } else if c == '+' {
            start = from + 1;
        }
    }
    let ghost u = unsigned_part(t);
    assert(u =~= s@.subrange(start as int, to as int));
    if start == to {
        assert(u.len() == 0);
        return None;
    }
    // the value of the digits read so far, but 100000 once it is larger
    let mut acc: i128 = 0;
    let mut i = start;
    while i < to
        invariant
            start <= i <= to,
            to <= s@.len(),
            u == s@.subrange(start as int, to as int),
            u == unsigned_part(s@.subrange(from as int, to as int)),
            all_digits(s@.subrange(start as int, i as int)),
            acc == if digits_value(s@.subrange(start as int, i as int)) > 100000 {
                100000
            } else {
                digits_value(s@.subrange(start as int, i as int))
            },
            digits_value(s@.subrange(start as int, i as int)) >= 0,
        decreases to - i,
    {
        let c = s.get_char(i);
        if !('0' <= c && c <= '9') {
            assert(u[i - start] == c);
            assert(!all_digits(u));
            return None;
        }
        let d = (c as u32 - '0' as u32) as i128;
        proof {
            assert(s@.subrange(start as int, i + 1) =~= s@.subrange(start as int, i as int).push(c));
            lemma_digits_value_push(s@.subrange(start as int, i as int), c);
            assert forall|j: int| 0 <= j < s@.subrange(start as int, i + 1).len() implies is_digit(
                #[trigger] s@.subrange(start as int, i + 1)[j],
            ) by {
                if j < i - start {
                    assert(s@.subrange(start as int, i + 1)[j] == s@.subrange(start as int, i as int)[j]);
                }
            }
        }
        if acc < 100000 {
            acc = acc * 10 + d;
            if acc > 100000 {
                acc = 100000;
            }
        }
        i = i + 1;
    }
    assert(s@.subrange(start as int, to as int) == u);
    let c = if acc > 99999 {
        99999
    } else {
        acc
    };
    if neg {
        Some(-c)
    } else {
        Some(c)
    }
}

/// Whether the characters of `s` from `from` on spell the word `lo`/`up`.
fn spells_exec(s: &str, from: usize, lo: &str, up: &str) -> (r: bool)
    requires
        from <= s@.len(),
        lo@.len() == up@.len(),
    ensures
        r == spells(s@.subrange(from as int, s@.len() as int), lo@, up@),
{
    let n = s.unicode_len();
    let w = lo.unicode_len();
    let ghost m = s@.subrange(from as int, n as int);
    if n - from != w {
        return false;
    }
    let mut i: usize = 0;
    while i < w
        invariant
            i <= w,
            w == lo@.len(),
            w == up@.len(),
            n == s@.len(),
            n - from == w,
            m == s@.subrange(from as int, n as int),
            forall|j: int| 0 <= j < i ==> m[j] == lo@[j] || m[j] == up@[j],
        decreases w - i,
    {
        let c = s.get_char(from + i);
        assert(m[i as int] == c);
        if c != lo.get_char(i) && c != up.get_char(i) {
            return false;
        }
        i = i + 1;
    }
    true
}

/// Where the float `s` stands in the order of values, as `float_rank`.
pub fn float_rank_exec(s: &str) -> (r: Option<u8>)
    ensures
        r is Some <==> is_float_text(s@),
        r matches Some(k) ==> k as int == float_rank(s@),
{
    let n = s.unicode_len();
    let mut start: usize = 0;
    if n > 0 {
        let c = s.get_char(0);
        if c == '-' || c == '+' {
            start = 1;
        }
    }
    assert(magnitude_part(s@) =~= s@.subrange(start as int, n as int));
    proof {
        reveal_strlit("nan");
        reveal_strlit("NAN");
        reveal_strlit("inf");
        reveal_strlit("INF");
        reveal_strlit("infinity");
        reveal_strlit("INFINITY");
    }
    if spells_exec(s, start, "nan", "NAN") {
        return Some(0);
    }
    if spells_exec(s, start, "inf", "INF") || spells_exec(s, start, "infinity", "INFINITY") {
        let neg = start == 1 && s.get_char(0) == '-';
        return if neg {
            Some(1)
        } else {
            Some(3)
        };
    }
    if split_decimal(s).is_some() {
        Some(2)
    } else {
        None
    }
}

/// Digits with `lead` zeros before and `trail` zeros after.
pub open spec fn padded(d: Seq<char>, lead: nat, trail: nat) -> Seq<char> {
    zeros(lead) + d + zeros(trail)
}

fn padded_at(d: &Vec<char>, lead: u128, trail: u128, i: u128) -> (c: char)
    requires
        i < lead + d@.len() + trail,
    ensures
        c == padded(d@, lead as nat, trail as nat)[i as int],
{
    if i < lead {
        '0'
    } else if i - lead < d.len() as u128 {
        d[(i - lead) as usize]
    } else {
        '0'
    }
}

proof fn lemma_padded(d: Seq<char>, lead: nat, trail: nat)
    requires
        all_digits(d),
    ensures
        all_digits(padded(d, lead, trail)),
        digits_value(padded(d, lead, trail)) == digits_value(d) * pow10(trail),
        padded(d, lead, trail).len() == lead + d.len() + trail,
{
    lemma_zeros_all_digits(lead);
    lemma_zeros_all_digits(trail);
    lemma_all_digits_add(d, zeros(trail));
    lemma_all_digits_add(zeros(lead), d + zeros(trail));
    assert(padded(d, lead, trail) =~= zeros(lead) + (d + zeros(trail)));
    lemma_leading_zeros(d + zeros(trail), lead);
    lemma_digits_value_trailing_zeros(d, trail);
}

/// Compares two padded digit strings of one length by value.
fn compare_padded(x: &Vec<char>, xl: u128, xt: u128, y: &Vec<char>, yl: u128, yt: u128) -> (r: Ordering)
    requires
        xl + x@.len() + xt == yl + y@.len() + yt,
        xl + x@.len() + xt < 0x1_0000_0000_0000_0000_0000_0000,
        all_digits(x@),
        all_digits(y@),
    ensures
        r == int_cmp(
            digits_value(padded(x@, xl as nat, xt as nat)),
            digits_value(padded(y@, yl as nat, yt as nat)),
        ),
{
    let ghost px = padded(x@, xl as nat, xt as nat);
    let ghost py = padded(y@, yl as nat, yt as nat);
    proof {
        lemma_padded(x@, xl as nat, xt as nat);
        lemma_padded(y@, yl as nat, yt as nat);
    }
    let len: u128 = xl + x.len() as u128 + xt;
    let mut i: u128 = 0;
    while i < len
        invariant
            i <= len,
            len == px.len(),
            px.len() == py.len(),
            px == padded(x@, xl as nat, xt as nat),
            py == padded(y@, yl as nat, yt as nat),
            len == xl + x@.len() + xt,
            len == yl + y@.len() + yt,
            all_digits(px),
            all_digits(py),
            px.subrange(0, i as int) == py.subrange(0, i as int),
        decreases len - i,
    {
        let a = padded_at(x, xl, xt, i);
        let b = padded_at(y, yl, yt, i);
        assert(is_digit(px[i as int]) && is_digit(py[i as int]));
        if a < b {
            proof {
                lemma_digits_value_first_difference(px, py, i as int);
            }
            return Ordering::Less;
        } else if b < a {
            proof {
                lemma_digits_value_first_difference(py, px, i as int);
            }
            return Ordering::Greater;
        }
        i = i + 1;
        assert(px.subrange(0, i as int) =~= py.subrange(0, i as int)) by {
            assert forall|j: int| 0 <= j < i implies px.subrange(0, i as int)[j] == py.subrange(0, i as int)[j] by {
                if j < i - 1 {
                    assert(px.subrange(0, i - 1)[j] == py.subrange(0, i - 1)[j]);
                }
            }
        }
    }
    assert(px =~= px.subrange(0, px.len() as int));
    assert(py =~= py.subrange(0, py.len() as int));
    Ordering::Equal
}

proof fn lemma_zeros_all_digits(n: nat)
    ensures
        all_digits(zeros(n)),
{
}

/// Compares two finite numerals by value.
fn compare_finite(a: &str, b: &str) -> (r: Ordering)
    requires
        is_finite_text(a@),
        is_finite_text(b@),
    ensures
        r == finite_cmp(a@, b@),
{
    let (na, xa, fa) = match split_decimal(a) {
        Some(t) => t,
        None => {
            return Ordering::Equal;
        },
    };
    let (nb, xb, fb) = match split_decimal(b) {
        Some(t) => t,
        None => {
            return Ordering::Equal;
        },
    };
    let k = if fa >= fb {
        fa
    } else {
        fb
    };
    assert(k as int == common_scale(a@, b@));
    proof {
        lemma_all_digits_add(int_digits(a@), frac_digits(a@));
        lemma_all_digits_add(int_digits(b@), frac_digits(b@));
    }
    let ta = (k - fa) as u128;
    let tb = (k - fb) as u128;
    let la = xa.len() as u128 + ta;
    let lb = xb.len() as u128 + tb;
    let width = if la >= lb {
        la
    } else {
        lb
    };
    let empty: Vec<char> = Vec::new();
    proof {
        lemma_padded(xa@, (width - la) as nat, ta as nat);
        lemma_padded(xb@, (width - lb) as nat, tb as nat);
        lemma_padded(empty@, width as nat, 0);
        assert(digits_value(empty@) == 0);
        assert(pow10(0) == 1);
        lemma_digits_value_bounds(xa@);
        lemma_digits_value_bounds(xb@);
        lemma_pow10_positive(ta as nat);
        lemma_pow10_positive(tb as nat);
        let va = digits_value(xa@);
        let vb = digits_value(xb@);
        let pa = pow10(ta as nat);
        let pb = pow10(tb as nat);
        assert(va * pa >= 0) by (nonlinear_arith)
            requires
                va >= 0,
                pa > 0,
        ;
        assert(vb * pb >= 0) by (nonlinear_arith)
            requires
                vb >= 0,
                pb > 0,
        ;
    }
    let magnitude = compare_padded(&xa, width - la, ta, &xb, width - lb, tb);
    if !na && !nb {
        magnitude
    } else if na && nb {
        match magnitude {
            Ordering::Less => Ordering::Greater,
            Ordering::Equal => Ordering::Equal,
            Ordering::Greater => Ordering::Less,
        }
    } else {
        let a_zero = compare_padded(&xa, width - la, ta, &empty, width, 0);
        let b_zero = compare_padded(&xb, width - lb, tb, &empty, width, 0);
        match (a_zero, b_zero) {
            (Ordering::Equal, Ordering::Equal) => Ordering::Equal,
            _ => if na {
                Ordering::Less
            } else {
                Ordering::Greater
            },
        }
    }
}

/// Compares two floats as `decimal_cmp_spec` orders them.
pub fn compare_decimals(a: &str, b: &str) -> (r: Ordering)
    requires
        is_float_text(a@),
        is_float_text(b@),
    ensures
        r == decimal_cmp_spec(a@, b@),
{
    let ra = match float_rank_exec(a) {
        Some(k) => k,
        None => {
            return Ordering::Equal;
        },
    };
    let rb = match float_rank_exec(b) {
        Some(k) => k,
        None => {
            return Ordering::Equal;
        },
    };
    if ra < rb {
        Ordering::Less
    } else if ra > rb {
        Ordering::Greater
    } else if ra == 2 {
        compare_finite(a, b)
    } else {
        Ordering::Equal
    }
}

pub open spec fn digit_char(d: nat) -> char {
    if d == 0 {
        '0'
    } else if d == 1 {
        '1'
    } else if d == 2 {
        '2'
    } else if d == 3 {
        '3'
    } else if d == 4 {
        '4'
    } else if d == 5 {
        '5'
    } else if d == 6 {
        '6'
    } else if d == 7 {
        '7'
    } else if d == 8 {
        '8'
    } else {
        '9'
    }
}

/// The decimal digits of `n`, without leading zeros.
pub open spec fn decimal_text(n: nat) -> Seq<char>
    decreases n,
{
    if n < 10 {
        seq![digit_char(n)]
    } else {
        decimal_text(n / 10).push(digit_char(n % 10))
    }
}

/// The text of a signed integer: a minus sign for negatives, then digits.
pub open spec fn int_text(v: int) -> Seq<char> {
    if v < 0 {
        seq!['-'] + decimal_text((-v) as nat)
    } else {
        decimal_text(v as nat)
    }
}

pub proof fn lemma_decimal_text(n: nat)
    ensures
        decimal_text(n).len() > 0,
        all_digits(decimal_text(n)),
        digits_value(decimal_text(n)) == n,
    decreases n,
{
    if n < 10 {
        let t = decimal_text(n);
        assert(t.drop_first() =~= Seq::<char>::empty());
        assert(digits_value(t.drop_first()) == 0);
        assert(pow10(0) == 1);
    } else {
        lemma_decimal_text(n / 10);
        lemma_digits_value_push(decimal_text(n / 10), digit_char(n % 10));
        let t = decimal_text(n);
        assert forall|i: int| 0 <= i < t.len() implies is_digit(#[trigger] t[i]) by {
            if i < t.len() - 1 {
                assert(t[i] == decimal_text(n / 10)[i]);
            }
        }
    }
}

/// The text of an `i32` reads back as that `i32`.
pub proof fn lemma_int_text_parses(v: i32)
    ensures
        parse_i32_spec(int_text(v as int)) == Some(v),
{
    if v < 0 {
        let m = (-(v as int)) as nat;
        lemma_decimal_text(m);
        let t = int_text(v as int);
        assert(t[0] == '-');
        assert(t.drop_first() =~= decimal_text(m));
    } else {
        lemma_decimal_text(v as nat);
        let t = decimal_text(v as nat);
        assert(is_digit(t[0]));
        assert(unsigned_part(t) == t);
    }
}

fn digit_str(d: u64) -> (r: &'static str)
    requires
        d < 10,
    ensures
        r@ == seq![digit_char(d as nat)],
{
    proof {
        reveal_strlit("0");
        reveal_strlit("1");
        reveal_strlit("2");
        reveal_strlit("3");
        reveal_strlit("4");
        reveal_strlit("5");
        reveal_strlit("6");
        reveal_strlit("7");
        reveal_strlit("8");
        reveal_strlit("9");
    }
    if d == 0 {
        "0"
    } else if d == 1 {
        "1"
    } else if d == 2 {
        "2"
    } else if d == 3 {
        "3"
    } else if d == 4 {
        "4"
    } else if d == 5 {
        "5"
    } else if d == 6 {
        "6"
    } else if d == 7 {
        "7"
    } else if d == 8 {
        "8"
    } else {
        "9"
    }
}

/// The decimal text of `n`.
pub fn format_u64(n: u64) -> (r: String)
    ensures
        r@ == decimal_text(n as nat),
    decreases n,
{
    if n < 10 {
        String::from_str(digit_str(n))
    } else {
        let mut s = format_u64(n / 10);
        s.append(digit_str(n % 10));
        s
    }
}

/// The decimal text of `v`, as `i32`'s `to_string` writes it.
pub fn format_i32(v: i32) -> (r: String)
    ensures
        r@ == int_text(v as int),
{
    if v < 0 {
        let m = (-(v as i64)) as u64;
        let mut s = String::from_str("-");
        proof {
            reveal_strlit("-");
        }
        let digits = format_u64(m);
        s.append(digits.as_str());
        s
    } else {
        format_u64(v as u64)
    }
}


pub proof fn lemma_pow10_add(x: nat, y: nat)
    ensures
        pow10(x + y) == pow10(x) * pow10(y),
    decreases x,
{
    if x > 0 {
        lemma_pow10_add((x - 1) as nat, y);
        assert(pow10(x + y) == 10 * pow10((x - 1 + y) as nat));
        let a = pow10((x - 1) as nat);
        let b = pow10(y);
        assert(10 * (a * b) == (10 * a) * b) by (nonlinear_arith);
    }
}

/// Scaling both sides by a further power of ten keeps their order.
proof fn lemma_scaled_cmp_rescale(a: Seq<char>, b: Seq<char>, k1: int, k2: int)
    requires
        neg_exp(a) <= k1 <= k2,
        neg_exp(b) <= k1,
    ensures
        int_cmp(scaled_value(a, k1), scaled_value(b, k1)) == int_cmp(scaled_value(a, k2), scaled_value(b, k2)),
{
    let d = (k2 - k1) as nat;
    let fa = neg_exp(a);
    let fb = neg_exp(b);
    lemma_pow10_add((k1 - fa) as nat, d);
    lemma_pow10_add((k1 - fb) as nat, d);
    assert((k2 - fa) as nat == ((k1 - fa) as nat + d) as nat);
    assert((k2 - fb) as nat == ((k1 - fb) as nat + d) as nat);
    lemma_pow10_positive(d);
    let ma = digits_value(int_digits(a) + frac_digits(a));
    let mb = digits_value(int_digits(b) + frac_digits(b));
    let pa = pow10((k1 - fa) as nat);
    let pb = pow10((k1 - fb) as nat);
    let q = pow10(d);
    let x = scaled_value(a, k1);
    let y = scaled_value(b, k1);
    assert(scaled_value(a, k2) == x * q) by {
        assert(ma * (pa * q) == (ma * pa) * q) by (nonlinear_arith);
        assert(-(ma * (pa * q)) == (-(ma * pa)) * q) by (nonlinear_arith);
    }
    assert(scaled_value(b, k2) == y * q) by {
        assert(mb * (pb * q) == (mb * pb) * q) by (nonlinear_arith);
        assert(-(mb * (pb * q)) == (-(mb * pb)) * q) by (nonlinear_arith);
    }
    assert(x < y ==> x * q < y * q) by (nonlinear_arith)
        requires
            q > 0,
    ;
    assert(x > y ==> x * q > y * q) by (nonlinear_arith)
        requires
            q > 0,
    ;
}

/// The value comparison of two numerals, made at any scale that holds both.
proof fn lemma_decimal_cmp_at(a: Seq<char>, b: Seq<char>, k: int)
    requires
        neg_exp(a) <= k,
        neg_exp(b) <= k,
    ensures
        finite_cmp(a, b) == int_cmp(scaled_value(a, k), scaled_value(b, k)),
{
    lemma_scaled_cmp_rescale(a, b, common_scale(a, b), k);
}

pub open spec fn max3(x: int, y: int, z: int) -> int {
    if x >= y && x >= z {
        x
    } else if y >= z {
        y
    } else {
        z
    }
}

/// Comparing numerals by value is a total preorder: values that compare
/// equal compare alike with a third, and less-than chains.
pub proof fn lemma_decimal_cmp_order(a: Seq<char>, b: Seq<char>, c: Seq<char>)
    ensures
        decimal_cmp_spec(a, b) == Ordering::Equal ==> decimal_cmp_spec(a, c) == decimal_cmp_spec(b, c),
        decimal_cmp_spec(a, b) == Ordering::Less && decimal_cmp_spec(b, c) == Ordering::Less
            ==> decimal_cmp_spec(a, c) == Ordering::Less,
        decimal_cmp_spec(a, b) == Ordering::Less && decimal_cmp_spec(b, c) == Ordering::Equal
            ==> decimal_cmp_spec(a, c) == Ordering::Less,
        decimal_cmp_spec(a, b) == Ordering::Equal && decimal_cmp_spec(b, c) == Ordering::Less
            ==> decimal_cmp_spec(a, c) == Ordering::Less,
        decimal_cmp_spec(a, b) == Ordering::Equal <==> decimal_cmp_spec(b, a) == Ordering::Equal,
        decimal_cmp_spec(a, b) == Ordering::Less <==> decimal_cmp_spec(b, a) == Ordering::Greater,
{
    let k = max3(neg_exp(a), neg_exp(b), neg_exp(c));
    lemma_decimal_cmp_at(a, b, k);
    lemma_decimal_cmp_at(b, c, k);
    lemma_decimal_cmp_at(a, c, k);
    lemma_decimal_cmp_at(b, a, k);
}

} // verus!
