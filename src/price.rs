use vstd::prelude::*;

verus! {

/// A decimal amount, `mantissa / 10^scale`, exactly as written in the page.
#[derive(Clone, Copy, Debug, PartialEq, Eq, Structural)]
pub struct Price {
    pub mantissa: u64,
    pub scale: usize,
}

/// Why a raw price text could not be read.
#[derive(Clone, Copy, Debug, PartialEq, Eq, Structural)]
pub enum PriceError {
    /// The text has no second space-separated field.
    NoAmount,
    /// The amount is not an optional `+`, digits with at most one decimal
    /// separator, and an optional exponent.
    Malformed,
    /// The digits do not fit in 64 bits, or the value does not fit in a
    /// `Price` (an exponent too large either way).
    TooLarge,
}

/// The characters that `char::is_whitespace` accepts (Unicode `White_Space`).
pub open spec fn is_blank(c: char) -> bool {
    let u = c as u32;
    (0x09 <= u && u <= 0x0D) || u == 0x20 || u == 0x85 || u == 0xA0 || u == 0x1680
        || (0x2000 <= u && u <= 0x200A) || u == 0x2028 || u == 0x2029 || u == 0x202F
        || u == 0x205F || u == 0x3000
}

pub open spec fn is_digit(c: char) -> bool {
    '0' <= c && c <= '9'
}

/// A decimal comma is read as a decimal point.
pub open spec fn is_separator(c: char) -> bool {
    c == ',' || c == '.'
}

pub open spec fn digit_value(c: char) -> nat {
    (c as u32 - '0' as u32) as nat
}

/// Index of the first `' '` at or after `from`, or `s.len()` when there is none.
pub open spec fn space_from(s: Seq<char>, from: int) -> int
    decreases s.len() - from,
{
    if from < 0 || from >= s.len() {
        s.len() as int
    } else if s[from] == ' ' {
        from
    } else {
        space_from(s, from + 1)
    }
}

/// The second field when `s` is split on single spaces.
pub open spec fn second_field(s: Seq<char>) -> Option<Seq<char>> {
    let i = space_from(s, 0);
    if i >= s.len() {
        None
    } else {
        Some(s.subrange(i + 1, space_from(s, i + 1)))
    }
}

/// Index of the first non-blank character of `s[lo..hi]`, or `hi`.
pub open spec fn skip_blank_front(s: Seq<char>, lo: int, hi: int) -> int
    decreases hi - lo,
{
    if lo >= hi {
        lo
    } else if is_blank(s[lo]) {
        skip_blank_front(s, lo + 1, hi)
    } else {
        lo
    }
}

/// One past the last non-blank character of `s[lo..hi]`, or `lo`.
pub open spec fn skip_blank_back(s: Seq<char>, lo: int, hi: int) -> int
    decreases hi - lo,
{
    if hi <= lo {
        hi
    } else if is_blank(s[hi - 1]) {
        skip_blank_back(s, lo, hi - 1)
    } else {
        hi
    }
}

/// `s` without leading and trailing blanks.
pub open spec fn trimmed(s: Seq<char>) -> Seq<char> {
    let lo = skip_blank_front(s, 0, s.len() as int);
    s.subrange(lo, skip_blank_back(s, lo, s.len() as int))
}

pub open spec fn separator_count(t: Seq<char>) -> nat
    decreases t.len(),
{
    if t.len() == 0 {
        0
    } else {
        separator_count(t.drop_last()) + if is_separator(t.last()) { 1nat } else { 0nat }
    }
}

pub open spec fn digit_count(t: Seq<char>) -> nat
    decreases t.len(),
{
    if t.len() == 0 {
        0
    } else {
        digit_count(t.drop_last()) + if is_digit(t.last()) { 1nat } else { 0nat }
    }
}

/// Digits, at most one separator, at least one digit.
pub open spec fn is_amount(t: Seq<char>) -> bool {
    &&& forall|i: int| 0 <= i < t.len() ==> is_digit(#[trigger] t[i]) || is_separator(t[i])
    &&& separator_count(t) <= 1
    &&& digit_count(t) >= 1
}

/// The number that the digits of `t` spell, the separator left out.
pub open spec fn mantissa_of(t: Seq<char>) -> nat
    decreases t.len(),
{
    if t.len() == 0 {
        0
    } else if is_digit(t.last()) {
        mantissa_of(t.drop_last()) * 10 + digit_value(t.last())
    } else {
        mantissa_of(t.drop_last())
    }
}

/// The number of characters after the separator (zero without one).
pub open spec fn scale_of(t: Seq<char>) -> nat
    decreases t.len(),
{
    if t.len() == 0 || is_separator(t.last()) || separator_count(t.drop_last()) == 0 {
        0
    } else {
        scale_of(t.drop_last()) + 1
    }
}

pub open spec fn is_exponent_mark(c: char) -> bool {
    c == 'e' || c == 'E'
}

/// Index of the first exponent mark at or after `from`, or `t.len()`.
pub open spec fn mark_from(t: Seq<char>, from: int) -> int
    decreases t.len() - from,
{
    if from < 0 || from >= t.len() {
        t.len() as int
    } else if is_exponent_mark(t[from]) {
        from
    } else {
        mark_from(t, from + 1)
    }
}

/// One or more decimal digits.
pub open spec fn is_digits(t: Seq<char>) -> bool {
    t.len() >= 1 && forall|i: int| 0 <= i < t.len() ==> is_digit(#[trigger] t[i])
}

pub open spec fn has_sign(x: Seq<char>) -> bool {
    x.len() > 0 && (x[0] == '+' || x[0] == '-')
}

/// The digits of an exponent, after its optional sign.
pub open spec fn exponent_digits(x: Seq<char>) -> Seq<char> {
    if has_sign(x) {
        x.subrange(1, x.len() as int)
    } else {
        x
    }
}

pub open spec fn exponent_value(x: Seq<char>) -> int {
    if x.len() > 0 && x[0] == '-' {
        -mantissa_of(exponent_digits(x))
    } else {
        mantissa_of(exponent_digits(x)) as int
    }
}

pub open spec fn pow10(k: nat) -> nat
    decreases k,
{
    if k == 0 {
        1
    } else {
        10 * pow10((k - 1) as nat)
    }
}

/// The price `m * 10^(e - f)`: digits `m`, of which `f` follow the
/// separator, and exponent `e`; `TooLarge` where `Price` cannot hold it.
pub open spec fn scaled_price(m: nat, f: nat, e: int) -> Result<Price, PriceError> {
    let d = f - e;
    if m > u64::MAX {
        Err(PriceError::TooLarge)
    } else if d >= 0 {
        if d <= usize::MAX {
            Ok(Price { mantissa: m as u64, scale: d as usize })
        } else {
            Err(PriceError::TooLarge)
        }
    } else if m * pow10((-d) as nat) <= u64::MAX {
        Ok(Price { mantissa: (m * pow10((-d) as nat)) as u64, scale: 0 })
    } else {
        Err(PriceError::TooLarge)
    }
}

/// The price that a trimmed amount such as `45.00`, `+5` or `1,5e3` denotes:
/// an optional `+`, digits with at most one separator, then optionally `e` or
/// `E` and digits with an optional sign.
pub open spec fn amount_price(t: Seq<char>) -> Result<Price, PriceError> {
    let b: int = if t.len() > 0 && t[0] == '+' { 1 } else { 0 };
    let k = mark_from(t, b);
    let body = t.subrange(b, k);
    if !is_amount(body) {
        Err(PriceError::Malformed)
    } else if k < t.len() {
        let x = t.subrange(k + 1, t.len() as int);
        if !is_digits(exponent_digits(x)) {
            Err(PriceError::Malformed)
        } else {
            scaled_price(mantissa_of(body), scale_of(body), exponent_value(x))
        }
    } else {
        scaled_price(mantissa_of(body), scale_of(body), 0)
    }
}

/// The price that a raw text such as `"€ 45,00"` denotes.
pub open spec fn price_of(s: Seq<char>) -> Result<Price, PriceError> {
    match second_field(s) {
        None => Err(PriceError::NoAmount),
        Some(field) => amount_price(trimmed(field)),
    }
}

/// Exponents are read up to this magnitude; any larger one gives the same
/// result as this one.
pub const EXPONENT_CAP: u128 = 0x40_0000_0000_0000_0000;

proof fn lemma_mantissa_prefix(t: Seq<char>, k: int)
    requires
        0 <= k <= t.len(),
    ensures
        mantissa_of(t.subrange(0, k)) <= mantissa_of(t),
    decreases t.len(),
{
    if k < t.len() {
        lemma_mantissa_prefix(t.drop_last(), k);
        assert(t.drop_last().subrange(0, k) =~= t.subrange(0, k));
    } else {
        assert(t.subrange(0, k) =~= t);
    }
}

proof fn lemma_space_from_bounds(s: Seq<char>, from: int)
    requires
        0 <= from <= s.len(),
    ensures
        from <= space_from(s, from) <= s.len(),
    decreases s.len() - from,
{
    if from < s.len() && s[from] != ' ' {
        lemma_space_from_bounds(s, from + 1);
    }
}

fn blank(c: char) -> (r: bool)
    ensures
        r == is_blank(c),
{
    let u = c as u32;
    (0x09 <= u && u <= 0x0D) || u == 0x20 || u == 0x85 || u == 0xA0 || u == 0x1680
        || (0x2000 <= u && u <= 0x200A) || u == 0x2028 || u == 0x2029 || u == 0x202F
        || u == 0x205F || u == 0x3000
}

fn find_space(s: &str, from: usize) -> (r: usize)
    requires
        from <= s@.len(),
    ensures
        r as int == space_from(s@, from as int),
        from <= r <= s@.len(),
{
    proof {
        lemma_space_from_bounds(s@, from as int);
    }
    let n = s.unicode_len();
    let mut i = from;
    while i < n
        invariant
            from <= i <= n,
            n == s@.len(),
            space_from(s@, i as int) == space_from(s@, from as int),
        decreases n - i,
    {
        if s.get_char(i) == ' ' {
            return i;
        }
        i = i + 1;
    }
    i
}

/// Reads the amount of a raw price text: the second field after splitting on
/// single spaces, trimmed, with a decimal comma taken as a decimal point.
/// `"€ 45,00"` gives 4500 at scale 2; `"€ 1.250,50"` has two separators and is
/// `Malformed`. The amount may start with `+` and end with an exponent
/// (`"€ 1e3"` is 1000); a `-` sign and words such as `inf` or `NaN` have no
/// price and are `Malformed`. The digits, the separator left out, must fit in
/// 64 bits, and the value in a `Price`, or the result is `TooLarge`.
pub fn parse_price(s: &str) -> (r: Result<Price, PriceError>)
    ensures
        r == price_of(s@),
{
    let n = s.unicode_len();
    let first = find_space(s, 0);
    if first >= n {
        return Err(PriceError::NoAmount);
    }
    let end = find_space(s, first + 1);
    let ghost field = s@.subrange(first + 1, end as int);
    assert(second_field(s@) == Some(field));
    // trim the front
    let mut lo = first + 1;
    while lo < end && blank(s.get_char(lo))
        invariant
            first + 1 <= lo <= end <= n,
            n == s@.len(),
            field == s@.subrange(first + 1, end as int),
            skip_blank_front(field, lo - first - 1, field.len() as int) == skip_blank_front(
                field,
                0,
                field.len() as int,
            ),
        decreases end - lo,
    {
        assert(field[lo - first - 1] == s@[lo as int]);
        lo = lo + 1;
    }
    proof {
        if lo < end {
            assert(field[lo - first - 1] == s@[lo as int]);
        }
    }
    let mut hi = end;
    while hi > lo && blank(s.get_char(hi - 1))
        invariant
            lo <= hi <= end <= n,
            n == s@.len(),
            field == s@.subrange(first + 1, end as int),
            first + 1 <= lo,
            skip_blank_back(field, lo - first - 1, hi - first - 1) == skip_blank_back(
                field,
                lo - first - 1,
                field.len() as int,
            ),
        decreases hi - lo,
    {
        assert(field[hi - first - 2] == s@[hi - 1]);
        hi = hi - 1;
    }
    proof {
        if hi > lo {
            assert(field[hi - first - 2] == s@[hi - 1]);
        }
    }
    let ghost t = s@.subrange(lo as int, hi as int);
    assert(t =~= trimmed(field));
    let amount = s.substring_char(lo, hi);
    read_amount(amount)
}

proof fn lemma_pow10_grows(j: nat, k: nat)
    requires
        j <= k,
    ensures
        pow10(j) <= pow10(k),
        pow10(k) >= 1,
    decreases k,
{
    if k > 0 {
        if j < k {
            lemma_pow10_grows(j, (k - 1) as nat);
        } else {
            lemma_pow10_grows((k - 1) as nat, (k - 1) as nat);
        }
    }
}

proof fn lemma_pow10_exceeds_u64(k: nat)
    requires
        k >= 20,
    ensures
        pow10(k) > u64::MAX,
{
    reveal_with_fuel(pow10, 21);
    assert(pow10(20) == 100000000000000000000nat);
    lemma_pow10_grows(20, k);
}

fn find_mark(t: &str, from: usize) -> (r: usize)
    requires
        from <= t@.len(),
    ensures
        r as int == mark_from(t@, from as int),
        from <= r <= t@.len(),
{
    let n = t.unicode_len();
    let mut i = from;
    while i < n
        invariant
            from <= i <= n,
            n == t@.len(),
            mark_from(t@, i as int) == mark_from(t@, from as int),
        decreases n - i,
    {
        let c = t.get_char(i);
        if c == 'e' || c == 'E' {
            return i;
        }
        i = i + 1;
    }
    i
}

fn is_amount_text(t: &str) -> (r: bool)
    ensures
        r == is_amount(t@),
{
    let n = t.unicode_len();
    let mut k: usize = 0;
    let mut seps: usize = 0;
    let mut digits: usize = 0;
    while k < n
        invariant
            k <= n,
            n == t@.len(),
            seps <= k,
            digits <= k,
            seps == separator_count(t@.subrange(0, k as int)),
            digits == digit_count(t@.subrange(0, k as int)),
            forall|i: int| 0 <= i < k ==> is_digit(#[trigger] t@[i]) || is_separator(t@[i]),
        decreases n - k,
    {
        let c = t.get_char(k);
        assert(t@.subrange(0, k + 1).drop_last() =~= t@.subrange(0, k as int));
        assert(t@.subrange(0, k + 1).last() == c);
        if c == ',' || c == '.' {
            seps = seps + 1;
        } else if '0' <= c && c <= '9' {
            digits = digits + 1;
        } else {
            return false;
        }
        k = k + 1;
    }
    assert(t@.subrange(0, k as int) =~= t@);
    seps <= 1 && digits >= 1
}

/// The digits of an amount and how many follow the separator; `None` when
/// they do not fit in 64 bits.
fn amount_digits(t: &str) -> (r: Option<(u64, usize)>)
    requires
        is_amount(t@),
    ensures
        r matches Some((m, f)) ==> m == mantissa_of(t@) && f == scale_of(t@),
        r is None ==> mantissa_of(t@) > u64::MAX,
{
    let n = t.unicode_len();
    let mut mantissa: u64 = 0;
    let mut scale: usize = 0;
    let mut seen_sep = false;
    let mut k: usize = 0;
    while k < n
        invariant
            k <= n,
            n == t@.len(),
            is_amount(t@),
            mantissa == mantissa_of(t@.subrange(0, k as int)),
            scale == scale_of(t@.subrange(0, k as int)),
            scale <= k,
            seen_sep == (separator_count(t@.subrange(0, k as int)) > 0),
        decreases n - k,
    {
        let c = t.get_char(k);
        let ghost next = t@.subrange(0, k + 1);
        assert(next.drop_last() =~= t@.subrange(0, k as int));
        assert(next.last() == c);
        if c == ',' || c == '.' {
            seen_sep = true;
            scale = 0;
        } else {
            if seen_sep {
                scale = scale + 1;
            }
            assert(is_digit(c));
            let d = (c as u32 - '0' as u32) as u64;
            if mantissa > (u64::MAX - d) / 10 {
                proof {
                    assert(mantissa * 10 + d > u64::MAX) by (nonlinear_arith)
                        requires
                            mantissa > (u64::MAX - d) / 10,
                            d <= 9,
                    ;
                    lemma_mantissa_prefix(t@, k + 1);
                }
                return None;
            }
            mantissa = mantissa * 10 + d;
        }
        k = k + 1;
    }
    assert(t@.subrange(0, k as int) =~= t@);
    Some((mantissa, scale))
}

/// The magnitude of a run of digits, capped at `EXPONENT_CAP`; `None` when
/// it is not a run of digits.
fn capped_digits(t: &str) -> (r: Option<u128>)
    ensures
        r is Some <==> is_digits(t@),
        r matches Some(v) ==> v == (if mantissa_of(t@) < EXPONENT_CAP { mantissa_of(t@) } else {
            EXPONENT_CAP as nat
        }),
{
    let n = t.unicode_len();
    if n == 0 {
        return None;
    }
    let mut v: u128 = 0;
    let mut k: usize = 0;
    while k < n
        invariant
            k <= n,
            n == t@.len(),
            n >= 1,
            forall|i: int| 0 <= i < k ==> is_digit(#[trigger] t@[i]),
            v == (if mantissa_of(t@.subrange(0, k as int)) < EXPONENT_CAP {
                mantissa_of(t@.subrange(0, k as int))
            } else {
                EXPONENT_CAP as nat
            }),
        decreases n - k,
    {
        let c = t.get_char(k);
        let ghost next = t@.subrange(0, k + 1);
        assert(next.drop_last() =~= t@.subrange(0, k as int));
        assert(next.last() == c);
        if !('0' <= c && c <= '9') {
            return None;
        }
        let d = (c as u32 - '0' as u32) as u128;
        if v < EXPONENT_CAP {
            let w = v * 10 + d;
            v = if w < EXPONENT_CAP { w } else { EXPONENT_CAP };
        }
        k = k + 1;
    }
    assert(t@.subrange(0, k as int) =~= t@);
    Some(v)
}

/// `scaled_price` for an exponent whose magnitude is known up to the cap.
fn scale_price(m: u64, f: usize, negative: bool, e: u128, Ghost(exp): Ghost<int>) -> (r: Result<Price, PriceError>)
    requires
        e <= EXPONENT_CAP,
        negative ==> exp <= 0,
        !negative ==> exp >= 0,
        e < EXPONENT_CAP ==> (exp == e || exp == -e),
        e == EXPONENT_CAP ==> (exp >= EXPONENT_CAP || exp <= -EXPONENT_CAP),
    ensures
        r == scaled_price(m as nat, f as nat, exp),
{
    assert(usize::MAX < EXPONENT_CAP);
    if negative {
        let d: u128 = f as u128 + e;
        if d <= usize::MAX as u128 {
            return Ok(Price { mantissa: m, scale: d as usize });
        }
        return Err(PriceError::TooLarge);
    }
    if e <= f as u128 {
        return Ok(Price { mantissa: m, scale: f - e as usize });
    }
    if m == 0 {
        assert(0 * pow10((exp - f) as nat) == 0);
        return Ok(Price { mantissa: 0, scale: 0 });
    }
    if e == EXPONENT_CAP {
        proof {
            lemma_pow10_exceeds_u64((exp - f) as nat);
            assert(m * pow10((exp - f) as nat) >= pow10((exp - f) as nat)) by (nonlinear_arith)
                requires
                    m >= 1,
            ;
        }
        return Err(PriceError::TooLarge);
    }
    let k: u128 = e - f as u128;
    assert(k == exp - f);
    let mut acc: u64 = m;
    let mut j: u128 = 0;
    proof {
        reveal_with_fuel(pow10, 1);
    }
    while j < k
        invariant
            j <= k,
            k == exp - f,
            m >= 1,
            acc == m * pow10(j as nat),
        decreases k - j,
    {
        let ghost p = pow10(j as nat);
        assert(pow10((j + 1) as nat) == 10 * p);
        if acc > u64::MAX / 10 {
            proof {
                lemma_pow10_grows((j + 1) as nat, k as nat);
                assert(m * pow10(k as nat) >= m * pow10((j + 1) as nat)) by (nonlinear_arith)
                    requires
                        pow10(k as nat) >= pow10((j + 1) as nat),
                        m >= 1,
                ;
                assert(m * pow10((j + 1) as nat) == acc * 10) by (nonlinear_arith)
                    requires
                        acc == m * p,
                        pow10((j + 1) as nat) == 10 * p,
                ;
            }
            return Err(PriceError::TooLarge);
        }
        assert(acc * 10 == m * pow10((j + 1) as nat)) by (nonlinear_arith)
            requires
                acc == m * p,
                pow10((j + 1) as nat) == 10 * p,
        ;
        acc = acc * 10;
        j = j + 1;
    }
    Ok(Price { mantissa: acc, scale: 0 })
}

/// Reads a trimmed amount.
fn read_amount(t: &str) -> (r: Result<Price, PriceError>)
    ensures
        r == amount_price(t@),
{
    let n = t.unicode_len();
    let b: usize = if n > 0 && t.get_char(0) == '+' { 1 } else { 0 };
    let k = find_mark(t, b);
    let body = t.substring_char(b, k);
    if !is_amount_text(body) {
        return Err(PriceError::Malformed);
    }
    let mut negative = false;
    let mut e: u128 = 0;
    let ghost mut exp: int = 0;
    if k < n {
        let x = t.substring_char(k + 1, n);
        let xn = x.unicode_len();
        let start: usize = if xn > 0 && (x.get_char(0) == '+' || x.get_char(0) == '-') { 1 } else { 0 };
        negative = xn > 0 && x.get_char(0) == '-';
        let digits = x.substring_char(start, xn);
        assert(digits@ =~= exponent_digits(x@));
        match capped_digits(digits) {
            None => {
                return Err(PriceError::Malformed);
            },
            Some(v) => {
                e = v;
            },
        }
        proof {
            exp = exponent_value(x@);
        }
    }
    match amount_digits(body) {
        None => Err(PriceError::TooLarge),
        Some((m, f)) => scale_price(m, f, negative, e, Ghost(exp)),
    }
}

} // verus!
