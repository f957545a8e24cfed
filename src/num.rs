use vstd::prelude::*;

verus! {

/// An exact rational number `numer / denom` with a positive denominator.
///
/// Token values carry numbers in this form so that arithmetic in transform
/// pipelines is exact and can never produce an infinity or a NaN.
#[derive(Clone, Copy, Debug)]
pub struct Num {
    numer: i64,
    denom: u64,
}

impl Num {
    #[verifier::type_invariant]
    spec fn positive_denominator(self) -> bool {
        self.denom > 0
    }

    /// The numerator.
    pub closed spec fn numer_spec(self) -> int {
        self.numer as int
    }

    /// The (positive) denominator.
    pub closed spec fn denom_spec(self) -> int {
        self.denom as int
    }

    /// The integer `n`.
    pub fn from_int(n: i64) -> (r: Num)
        ensures
            r.numer_spec() == n,
            r.denom_spec() == 1,
    {
        Num { numer: n, denom: 1 }
    }

    /// The fraction `numer / denom`.
    pub fn ratio(numer: i64, denom: u64) -> (r: Num)
        requires
            denom > 0,
        ensures
            r.numer_spec() == numer,
            r.denom_spec() == denom,
    {
        Num { numer, denom }
    }

    pub fn numer(&self) -> (r: i64)
        ensures
            r == self.numer_spec(),
    {
        self.numer
    }

    pub fn denom(&self) -> (r: u64)
        ensures
            r == self.denom_spec(),
            r > 0,
    {
        proof {
            use_type_invariant(self);
        }
        self.denom
    }
}


/// Enough fraction digits for every expansion that ends: with a denominator
/// below 2^64, an ending expansion has at most 64 digits.
pub const FULL_FRACTION_DIGITS: u64 = 64;

/// Where an expansion never ends, the digits kept after the decimal point.
pub const CUT_FRACTION_DIGITS: u64 = 16;

pub open spec fn fits_i64(x: int) -> bool {
    i64::MIN <= x <= i64::MAX
}

pub open spec fn fits_denom(x: int) -> bool {
    0 < x <= u64::MAX
}

/// The exact product, as (numerator, denominator).
pub open spec fn mul_parts(a: Num, b: Num) -> (int, int) {
    (a.numer_spec() * b.numer_spec(), a.denom_spec() * b.denom_spec())
}

/// The exact sum, as (numerator, denominator).
pub open spec fn add_parts(a: Num, b: Num) -> (int, int) {
    (
        a.numer_spec() * b.denom_spec() + b.numer_spec() * a.denom_spec(),
        a.denom_spec() * b.denom_spec(),
    )
}

/// The exact difference, as (numerator, denominator).
pub open spec fn sub_parts(a: Num, b: Num) -> (int, int) {
    (
        a.numer_spec() * b.denom_spec() - b.numer_spec() * a.denom_spec(),
        a.denom_spec() * b.denom_spec(),
    )
}

/// The exact quotient for a non-zero divisor, as (numerator, denominator)
/// with the sign carried by the numerator.
pub open spec fn div_parts(a: Num, b: Num) -> (int, int) {
    if b.numer_spec() < 0 {
        (-a.numer_spec() * b.denom_spec(), a.denom_spec() * -b.numer_spec())
    } else {
        (a.numer_spec() * b.denom_spec(), a.denom_spec() * b.numer_spec())
    }
}

/// The number with the given parts.
pub closed spec fn num_from(p: (int, int)) -> Num {
    Num { numer: p.0 as i64, denom: p.1 as u64 }
}

/// The number with the given parts, or `None` where they do not fit.
pub open spec fn num_op(p: (int, int)) -> Option<Num> {
    if fits_i64(p.0) && fits_denom(p.1) {
        Some(num_from(p))
    } else {
        None
    }
}

/// A number built from parts that fit has exactly those parts.
pub proof fn lemma_num_from(p: (int, int))
    requires
        fits_i64(p.0),
        fits_denom(p.1),
    ensures
        num_from(p).numer_spec() == p.0,
        num_from(p).denom_spec() == p.1,
{
}

pub open spec fn same_number(a: Num, b: Num) -> bool {
    a.numer_spec() * b.denom_spec() == b.numer_spec() * a.denom_spec()
}

pub open spec fn digit_char(d: nat) -> char {
    ((48 + d) as u8) as char
}

/// Decimal digits of a natural number.
pub open spec fn nat_text(n: nat) -> Seq<char>
    decreases n,
{
    if n < 10 {
        seq![digit_char(n)]
    } else {
        nat_text(n / 10).push(digit_char(n % 10))
    }
}

/// Up to `k` decimal digits of the fraction `r / d`, stopping once exact.
pub open spec fn fraction_text(r: nat, d: nat, k: nat) -> Seq<char>
    decreases k,
{
    if r == 0 || k == 0 || d == 0 {
        Seq::empty()
    } else {
        seq![digit_char((10 * r) / d)] + fraction_text((10 * r) % d, d, (k - 1) as nat)
    }
}

/// The remainder left after `k` digits of the fraction `r / d`; zero where
/// the expansion has ended.
pub open spec fn fraction_rest(r: nat, d: nat, k: nat) -> nat
    decreases k,
{
    if r == 0 || k == 0 || d == 0 {
        r
    } else {
        fraction_rest((10 * r) % d, d, (k - 1) as nat)
    }
}

/// How a number is written: an integer without a fractional part, otherwise
/// its decimal expansion in full where it ends, and otherwise cut after
/// `CUT_FRACTION_DIGITS` digits.
pub open spec fn num_text(n: Num) -> Seq<char> {
    let a = if n.numer_spec() < 0 {
        -n.numer_spec()
    } else {
        n.numer_spec()
    };
    let d = n.denom_spec();
    let sign = if n.numer_spec() < 0 {
        seq!['-']
    } else {
        Seq::empty()
    };
    let whole = sign + nat_text((a / d) as nat);
    if a % d == 0 {
        whole
    } else {
        let k = if fraction_rest((a % d) as nat, d as nat, FULL_FRACTION_DIGITS as nat) == 0 {
            FULL_FRACTION_DIGITS
        } else {
            CUT_FRACTION_DIGITS
        };
        whole.push('.') + fraction_text((a % d) as nat, d as nat, k as nat)
    }
}

fn wide_product(x: i64, y: u64) -> (r: i128)
    ensures
        r == x * y,
        -product_bound() <= r <= product_bound(),
{
    proof {
        let xi = x as int;
        let yi = y as int;
        if xi >= 0 {
            assert(0 <= xi * yi <= 0x7fff_ffff_ffff_ffff * 0xffff_ffff_ffff_ffff) by (nonlinear_arith)
                requires 0 <= xi <= 0x7fff_ffff_ffff_ffff, 0 <= yi <= 0xffff_ffff_ffff_ffff;
        } else {
            assert(-0x8000_0000_0000_0000 * 0xffff_ffff_ffff_ffff <= xi * yi <= 0) by (nonlinear_arith)
                requires -0x8000_0000_0000_0000 <= xi < 0, 0 <= yi <= 0xffff_ffff_ffff_ffff;
        }
    }
    (x as i128) * (y as i128)
}

fn denom_product(x: u64, y: u64) -> (r: Option<u64>)
    ensures
        match r {
            Some(v) => v == x * y,
            None => x * y > u64::MAX,
        },
{
    proof {
        assert(0 <= (x as int) * (y as int) <= 0xffff_ffff_ffff_ffff * 0xffff_ffff_ffff_ffff) by (nonlinear_arith)
            requires 0 <= x <= 0xffff_ffff_ffff_ffff, 0 <= y <= 0xffff_ffff_ffff_ffff;
    }
    let p = (x as u128) * (y as u128);
    if p <= u64::MAX as u128 {
        Some(p as u64)
    } else {
        None
    }
}

pub open spec fn product_bound() -> int {
    0x8000_0000_0000_0000int * 0xffff_ffff_ffff_ffffint
}

/// `left + right` as an `i64`, where it fits.
fn narrow_sum(left: i128, right: i128) -> (r: Option<i64>)
    requires
        -product_bound() <= left <= product_bound(),
        -product_bound() <= right <= product_bound(),
    ensures
        match r {
            Some(v) => v == left + right,
            None => !fits_i64(left + right),
        },
{
    if left >= 0 && right >= 0 && (left > i64::MAX as i128 || right > i64::MAX as i128) {
        return None;
    }
    if left < 0 && right < 0 && (left < i64::MIN as i128 || right < i64::MIN as i128) {
        return None;
    }
    let s = left + right;
    if i64::MIN as i128 <= s && s <= i64::MAX as i128 {
        Some(s as i64)
    } else {
        None
    }
}

impl Num {
    /// The exact product, or `None` where it does not fit.
    pub fn checked_mul(&self, other: &Num) -> (r: Option<Num>)
        ensures
            r == num_op(mul_parts(*self, *other)),
            r matches Some(x) ==> x.numer_spec() == mul_parts(*self, *other).0 && x.denom_spec() == mul_parts(*self, *other).1,
    {
        proof {
            use_type_invariant(self);
            use_type_invariant(other);
            assert(0 < (self.denom as int) * (other.denom as int)) by (nonlinear_arith)
                requires self.denom > 0, other.denom > 0;
            let a = self.numer as int;
            let b = other.numer as int;
            assert(-0x8000_0000_0000_0000 * 0x8000_0000_0000_0000 <= a * b <= 0x8000_0000_0000_0000 * 0x8000_0000_0000_0000) by (nonlinear_arith)
                requires -0x8000_0000_0000_0000 <= a <= 0x7fff_ffff_ffff_ffff, -0x8000_0000_0000_0000 <= b <= 0x7fff_ffff_ffff_ffff;
        }
        let p = (self.numer as i128) * (other.numer as i128);
        let d = denom_product(self.denom, other.denom);
        match d {
            Some(d) => {
                if i64::MIN as i128 <= p && p <= i64::MAX as i128 {
                    Some(Num { numer: p as i64, denom: d })
                } else {
                    None
                }
            },
            None => None,
        }
    }

    fn combine(&self, other: &Num, negate_other: bool) -> (r: Option<Num>)
        ensures
            r == num_op(
                if negate_other {
                    sub_parts(*self, *other)
                } else {
                    add_parts(*self, *other)
                },
            ),
    {
        proof {
            use_type_invariant(self);
            use_type_invariant(other);
            assert(0 < (self.denom as int) * (other.denom as int)) by (nonlinear_arith)
                requires self.denom > 0, other.denom > 0;
        }
        let left = wide_product(self.numer, other.denom);
        let q = wide_product(other.numer, self.denom);
        let right: i128 = if negate_other {
            -q
        } else {
            q
        };
        let s = narrow_sum(left, right);
        let d = denom_product(self.denom, other.denom);
        match (s, d) {
            (Some(s), Some(d)) => Some(Num { numer: s, denom: d }),
            _ => None,
        }
    }

    /// The exact sum, or `None` where it does not fit.
    pub fn checked_add(&self, other: &Num) -> (r: Option<Num>)
        ensures
            r == num_op(add_parts(*self, *other)),
            r matches Some(x) ==> x.numer_spec() == add_parts(*self, *other).0 && x.denom_spec() == add_parts(*self, *other).1,
    {
        self.combine(other, false)
    }

    /// The exact difference, or `None` where it does not fit.
    pub fn checked_sub(&self, other: &Num) -> (r: Option<Num>)
        ensures
            r == num_op(sub_parts(*self, *other)),
            r matches Some(x) ==> x.numer_spec() == sub_parts(*self, *other).0 && x.denom_spec() == sub_parts(*self, *other).1,
    {
        self.combine(other, true)
    }

    pub fn is_zero(&self) -> (r: bool)
        ensures
            r == (self.numer_spec() == 0),
    {
        self.numer == 0
    }

    /// The exact quotient by a non-zero number, or `None` where it does not fit.
    pub fn checked_div(&self, other: &Num) -> (r: Option<Num>)
        requires
            other.numer_spec() != 0,
        ensures
            r == num_op(div_parts(*self, *other)),
            r matches Some(x) ==> x.numer_spec() == div_parts(*self, *other).0 && x.denom_spec() == div_parts(*self, *other).1,
    {
        proof {
            use_type_invariant(self);
            use_type_invariant(other);
        }
        let p = wide_product(self.numer, other.denom);
        let negative = other.numer < 0;
        let n: i128 = if negative {
            -p
        } else {
            p
        };
        let m: u64 = if negative {
            (-(other.numer as i128)) as u64
        } else {
            other.numer as u64
        };
        let d = denom_product(self.denom, m);
        proof {
            assert((self.denom as int) * (m as int) > 0) by (nonlinear_arith)
                requires self.denom > 0, m > 0;
            let (a, b, c) = (self.numer as int, other.denom as int, self.denom as int);
            assert(-a * b == -(a * b)) by (nonlinear_arith);
            if negative {
                assert(c * -(other.numer as int) == c * (m as int));
            }
        }
        match d {
            Some(d) => {
                if i64::MIN as i128 <= n && n <= i64::MAX as i128 {
                    Some(Num { numer: n as i64, denom: d })
                } else {
                    None
                }
            },
            None => None,
        }
    }
}

impl PartialEq for Num {
    fn eq(&self, other: &Num) -> (r: bool)
        ensures
            r == same_number(*self, *other),
    {
        wide_product(self.numer, other.denom) == wide_product(other.numer, self.denom)
    }
}

impl vstd::std_specs::cmp::PartialEqSpecImpl for Num {
    open spec fn obeys_eq_spec() -> bool {
        true
    }

    open spec fn eq_spec(&self, other: &Num) -> bool {
        same_number(*self, *other)
    }
}

fn digit(d: u64) -> (r: char)
    requires
        d < 10,
    ensures
        r == digit_char(d as nat),
{
    ((48 + d) as u8) as char
}

fn push_digit(s: &mut String, d: u64)
    requires
        d < 10,
    ensures
        final(s)@ == old(s)@.push(digit_char(d as nat)),
{
    crate::text::push_char(s, digit(d));
}

/// The decimal digits of `n`, appended to `s`.
pub(crate) fn push_nat(s: &mut String, n: u64)
    ensures
        final(s)@ == old(s)@ + nat_text(n as nat),
    decreases n,
{
    if n < 10 {
        push_digit(s, n);
        assert(final(s)@ =~= old(s)@ + nat_text(n as nat));
    } else {
        push_nat(s, n / 10);
        push_digit(s, n % 10);
        assert(final(s)@ =~= old(s)@ + nat_text(n as nat));
    }
}

/// Up to `k` digits of the fraction `r / d`, appended to `s`.
fn push_fraction(s: &mut String, r: u64, d: u64, k: u64)
    requires
        r < d,
    ensures
        final(s)@ == old(s)@ + fraction_text(r as nat, d as nat, k as nat),
    decreases k,
{
    if r == 0 || k == 0 {
        assert(final(s)@ =~= old(s)@ + fraction_text(r as nat, d as nat, k as nat));
    } else {
        let ten_r: u128 = 10 * (r as u128);
        let q = ten_r / (d as u128);
        let rest = ten_r % (d as u128);
        proof {
            assert(q < 10) by (nonlinear_arith)
                requires q == ten_r / (d as u128), ten_r == 10 * r, r < d;
        }
        push_digit(s, q as u64);
        push_fraction(s, rest as u64, d, k - 1);
        assert(final(s)@ =~= old(s)@ + fraction_text(r as nat, d as nat, k as nat));
    }
}

/// Whether the expansion of `r / d` ends within `k` digits.
fn fraction_ends(r: u64, d: u64, k: u64) -> (b: bool)
    requires
        r < d,
    ensures
        b == (fraction_rest(r as nat, d as nat, k as nat) == 0),
    decreases k,
{
    if r == 0 || k == 0 {
        r == 0
    } else {
        let ten_r: u128 = 10 * (r as u128);
        let rest = ten_r % (d as u128);
        fraction_ends(rest as u64, d, k - 1)
    }
}

/// How a number is written (see `num_text`).
pub fn fmt_num(n: &Num) -> (r: String)
    ensures
        r@ == num_text(*n),
{
    proof {
        use_type_invariant(n);
    }
    let negative = n.numer < 0;
    let a: u64 = if negative {
        (-(n.numer as i128)) as u64
    } else {
        n.numer as u64
    };
    let mut s = String::new();
    if negative {
        crate::text::push_char(&mut s, '-');
    }
    push_nat(&mut s, a / n.denom);
    if a % n.denom != 0 {
        crate::text::push_char(&mut s, '.');
        let k = if fraction_ends(a % n.denom, n.denom, FULL_FRACTION_DIGITS) {
            FULL_FRACTION_DIGITS
        } else {
            CUT_FRACTION_DIGITS
        };
        push_fraction(&mut s, a % n.denom, n.denom, k);
    }
    assert(s@ =~= num_text(*n));
    s
}

pub open spec fn is_digit(c: char) -> bool {
    '0' <= c <= '9'
}

pub open spec fn pow10(k: nat) -> int
    decreases k,
{
    if k == 0 {
        1
    } else {
        10 * pow10((k - 1) as nat)
    }
}

/// Reading a decimal numeral left to right, as (well-formed so far, negative,
/// dot seen, digits before the dot, digits after it, value of all digits).
pub open spec fn decimal_scan(s: Seq<char>) -> (bool, bool, bool, nat, nat, int)
    decreases s.len(),
{
    if s.len() == 0 {
        (true, false, false, 0, 0, 0)
    } else {
        let (ok, neg, dot, before, after, mag) = decimal_scan(s.drop_last());
        let c = s.last();
        if s.len() == 1 && c == '-' {
            (ok, true, dot, before, after, mag)
        } else if c == '.' && !dot && before > 0 {
            (ok, neg, true, before, after, mag)
        } else if is_digit(c) {
            if dot {
                (ok, neg, dot, before, after + 1, mag * 10 + (c as int - 48))
            } else {
                (ok, neg, dot, before + 1, after, mag * 10 + (c as int - 48))
            }
        } else {
            (false, neg, dot, before, after, mag)
        }
    }
}

/// The exact parts of a decimal numeral `-?D+(.D+)?`; `None` for other text.
pub open spec fn decimal_parts(s: Seq<char>) -> Option<(int, int)> {
    let (ok, neg, dot, before, after, mag) = decimal_scan(s);
    if ok && before > 0 && (!dot || after > 0) {
        Some((if neg { -mag } else { mag }, pow10(after)))
    } else {
        None
    }
}

proof fn lemma_scan_bounds(s: Seq<char>)
    ensures
        decimal_scan(s).5 >= 0,
        decimal_scan(s).4 <= s.len(),
    decreases s.len(),
{
    if s.len() > 0 {
        lemma_scan_bounds(s.drop_last());
    }
}

proof fn lemma_pow10_positive(k: nat)
    ensures
        pow10(k) >= 1,
    decreases k,
{
    if k > 0 {
        lemma_pow10_positive((k - 1) as nat);
    }
}

/// Above this, a magnitude fits no `i64`.
pub const MAGNITUDE_CAP: u128 = 0x8000_0000_0000_0000;

impl Num {
    /// The number written as a decimal numeral `-?D+(.D+)?`, where its exact
    /// numerator and denominator fit; `None` otherwise.
    pub fn parse_decimal(s: &str) -> (r: Option<Num>)
        ensures
            r == match decimal_parts(s@) {
                Some(p) => num_op(p),
                None => None,
            },
    {
        let chars = crate::text::chars_of(s);
        let mut ok = true;
        let mut neg = false;
        let mut dot = false;
        let mut before: usize = 0;
        let mut after: usize = 0;
        let mut mag: u128 = 0;
        let mut denom: u128 = 1;
        let mut big = false;
        let mut big_denom = false;
        let mut i: usize = 0;
        while i < chars.len()
            invariant
                chars@ == s@,
                i <= chars.len(),
                (ok, neg, dot, before as nat, after as nat) == {
                    let st = decimal_scan(s@.subrange(0, i as int));
                    (st.0, st.1, st.2, st.3, st.4)
                },
                before <= i,
                after <= i,
                big ==> decimal_scan(s@.subrange(0, i as int)).5 > MAGNITUDE_CAP,
                !big ==> mag == decimal_scan(s@.subrange(0, i as int)).5 && mag <= MAGNITUDE_CAP,
                big_denom ==> pow10(after as nat) > u64::MAX,
                !big_denom ==> denom == pow10(after as nat) && denom <= u64::MAX,
            decreases chars.len() - i,
        {
            let c = chars[i];
            proof {
                assert(s@.subrange(0, i + 1).drop_last() =~= s@.subrange(0, i as int));
                lemma_scan_bounds(s@.subrange(0, i as int));
            }
            if i == 0 && c == '-' {
                neg = true;
            } else if c == '.' && !dot && before > 0 {
                dot = true;
            } else if '0' <= c && c <= '9' {
                let d = (c as u32 - 48) as u128;
                if !big {
                    let next = mag * 10 + d;
                    if next > MAGNITUDE_CAP {
                        big = true;
                    } else {
                        mag = next;
                    }
                }
                if dot {
                    after = after + 1;
                    if !big_denom {
                        let next = denom * 10;
                        if next > u64::MAX as u128 {
                            big_denom = true;
                        } else {
                            denom = next;
                        }
                    }
                } else {
                    before = before + 1;
                }
            } else {
                ok = false;
            }
            i = i + 1;
        }
        assert(s@.subrange(0, chars.len() as int) =~= s@);
        proof {
            lemma_scan_bounds(s@);
            lemma_pow10_positive(after as nat);
        }
        if !(ok && before > 0 && (!dot || after > 0)) {
            return None;
        }
        if big || big_denom {
            return None;
        }
        if neg {
            if mag > MAGNITUDE_CAP {
                return None;
            }
            let numer: i64 = if mag == MAGNITUDE_CAP {
                i64::MIN
            } else {
                -(mag as i64)
            };
            Some(Num { numer, denom: denom as u64 })
        } else {
            if mag > i64::MAX as u128 {
                return None;
            }
            Some(Num { numer: mag as i64, denom: denom as u64 })
        }
    }
}

} // verus!
