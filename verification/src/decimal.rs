//! Exact decimal numbers of arbitrary length.
//!
//! A number is kept as its decimal digits: the digits before the point without
//! leading zeros, the digits after it without trailing zeros, and a sign. Two
//! numbers are therefore equal exactly when their digits and signs are.

use vstd::prelude::*;
use crate::text::{chars_of, lemma_scan_while, lemma_scan_while_exact, scan_while, Relation};

verus! {

/// Ten to the power `n`.
pub open spec fn pow10(n: nat) -> nat
    decreases n,
{
    if n == 0 {
        1
    } else {
        10 * pow10((n - 1) as nat)
    }
}

/// The number written by the digits `ds`, most significant first.
pub open spec fn digits_value(ds: Seq<u8>) -> nat
    decreases ds.len(),
{
    if ds.len() == 0 {
        0
    } else {
        digits_value(ds.drop_last()) * 10 + ds.last() as nat
    }
}

/// Every element is a decimal digit.
pub open spec fn all_digits(ds: Seq<u8>) -> bool {
    forall|i: int| 0 <= i < ds.len() ==> ds[i] < 10
}

/// `n` zeros.
pub open spec fn zeros(n: nat) -> Seq<u8> {
    Seq::new(n, |i: int| 0u8)
}

/// `ds` without its leading zeros.
pub open spec fn strip_leading_zeros(ds: Seq<u8>) -> Seq<u8>
    decreases ds.len(),
{
    if ds.len() > 0 && ds[0] == 0 {
        strip_leading_zeros(ds.drop_first())
    } else {
        ds
    }
}

/// `ds` without its trailing zeros.
pub open spec fn strip_trailing_zeros(ds: Seq<u8>) -> Seq<u8>
    decreases ds.len(),
{
    if ds.len() > 0 && ds.last() == 0 {
        strip_trailing_zeros(ds.drop_last())
    } else {
        ds
    }
}

/// The mathematical content of a [`Decimal`].
pub struct DecimalView {
    pub negative: bool,
    pub whole: Seq<u8>,
    pub fraction: Seq<u8>,
}

impl DecimalView {
    /// The digits are digits, none of them is a padding zero, and zero has no sign.
    pub open spec fn canonical(self) -> bool {
        &&& all_digits(self.whole)
        &&& all_digits(self.fraction)
        &&& (self.whole.len() > 0 ==> self.whole[0] != 0)
        &&& (self.fraction.len() > 0 ==> self.fraction.last() != 0)
        &&& (self.negative ==> self.whole.len() + self.fraction.len() > 0)
    }

    /// The number of digits after the point.
    pub open spec fn scale(self) -> nat {
        self.fraction.len()
    }

    /// The absolute value times `10^k`, for `k` at least `scale()`.
    pub open spec fn magnitude(self, k: nat) -> nat {
        digits_value(self.whole + self.fraction) * pow10((k - self.fraction.len()) as nat)
    }

    /// The value times `10^k`, for `k` at least `scale()`.
    pub open spec fn scaled(self, k: nat) -> int {
        if self.negative {
            -(self.magnitude(k) as int)
        } else {
            self.magnitude(k) as int
        }
    }

    /// How the value of `self` stands to the value of `other`.
    pub open spec fn relation(self, other: DecimalView) -> Relation {
        let k = if self.scale() >= other.scale() {
            self.scale()
        } else {
            other.scale()
        };
        Relation::of(self.scaled(k), other.scaled(k))
    }

    /// No digits after the point.
    pub open spec fn is_integer(self) -> bool {
        self.fraction.len() == 0
    }

    /// The decimal notation: a `-` for negative numbers, the digits before the
    /// point (`0` if there are none) and, if any, a point and the digits after it.
    pub open spec fn text(self) -> Seq<char> {
        let sign = if self.negative {
            seq!['-']
        } else {
            Seq::<char>::empty()
        };
        let whole = if self.whole.len() == 0 {
            seq!['0']
        } else {
            digits_text(self.whole)
        };
        let fraction = if self.fraction.len() == 0 {
            Seq::<char>::empty()
        } else {
            seq!['.'] + digits_text(self.fraction)
        };
        sign + whole + fraction
    }
}

/// The number with the given sign and digits, padding zeros removed.
pub open spec fn normalize(negative: bool, whole: Seq<u8>, fraction: Seq<u8>) -> DecimalView {
    let w = strip_leading_zeros(whole);
    let f = strip_trailing_zeros(fraction);
    DecimalView { negative: negative && w.len() + f.len() > 0, whole: w, fraction: f }
}

/// `c` is one of `0` to `9`.
pub open spec fn is_digit_char(c: char) -> bool {
    '0' <= c && c <= '9'
}

/// The predicate `is_digit_char` as a value.
pub open spec fn digit_chars() -> spec_fn(char) -> bool {
    |c: char| is_digit_char(c)
}

/// The character that writes the digit `d`.
pub open spec fn digit_char(d: u8) -> char {
    (d as int + 48) as char
}

/// The characters that write the digits `ds`.
pub open spec fn digits_text(ds: Seq<u8>) -> Seq<char> {
    Seq::new(ds.len(), |i: int| digit_char(ds[i]))
}

/// The digits written by the characters `s`.
pub open spec fn digit_values(s: Seq<char>) -> Seq<u8> {
    Seq::new(s.len(), |i: int| (s[i] as int - 48) as u8)
}

/// What a text denotes as a number, if anything: an optional sign, digits, and,
/// where `allow_fraction` holds, an optional point followed by digits; at least
/// one digit in all, and nothing else.
pub open spec fn parse_spec(s: Seq<char>, allow_fraction: bool) -> Option<DecimalView> {
    let signed = s.len() > 0 && (s[0] == '-' || s[0] == '+');
    let negative = s.len() > 0 && s[0] == '-';
    let start: int = if signed {
        1
    } else {
        0
    };
    let point = scan_while(s, start, digit_chars());
    if point == s.len() {
        if point > start {
            Some(normalize(negative, digit_values(s.subrange(start, point)), Seq::empty()))
        } else {
            None
        }
    } else if allow_fraction && s[point] == '.' {
        let end = scan_while(s, point + 1, digit_chars());
        if end == s.len() && end - start > 1 {
            Some(
                normalize(
                    negative,
                    digit_values(s.subrange(start, point)),
                    digit_values(s.subrange(point + 1, end)),
                ),
            )
        } else {
            None
        }
    } else {
        None
    }
}

pub proof fn lemma_pow10_positive(n: nat)
    ensures
        pow10(n) > 0,
    decreases n,
{
    if n > 0 {
        lemma_pow10_positive((n - 1) as nat);
    }
}

pub proof fn lemma_pow10_monotonic(m: nat, n: nat)
    requires
        m <= n,
    ensures
        pow10(m) <= pow10(n),
    decreases n,
{
    if m < n {
        lemma_pow10_monotonic(m, (n - 1) as nat);
        lemma_pow10_positive((n - 1) as nat);
    }
}

/// Writing `y` after `x` multiplies `x` by a power of ten and adds `y`.
pub proof fn lemma_digits_value_concat(x: Seq<u8>, y: Seq<u8>)
    ensures
        digits_value(x + y) == digits_value(x) * pow10(y.len()) + digits_value(y),
    decreases y.len(),
{
    if y.len() == 0 {
        assert(x + y == x);
        assert(pow10(0) == 1);
        assert(digits_value(x) * 1 == digits_value(x)) by (nonlinear_arith);
    } else {
        let y1 = y.drop_last();
        lemma_digits_value_concat(x, y1);
        assert((x + y).drop_last() == x + y1);
        assert((x + y).last() == y.last());
        let p = pow10(y1.len());
        let dx = digits_value(x);
        let d1 = digits_value(y1);
        assert(pow10(y.len()) == 10 * p);
        assert(digits_value(x + y) == (dx * p + d1) * 10 + y.last() as nat);
        assert(digits_value(y) == d1 * 10 + y.last() as nat);
        assert((dx * p + d1) * 10 == dx * (10 * p) + d1 * 10) by (nonlinear_arith);
    }
}

/// `n` digits write a number below `10^n`.
pub proof fn lemma_digits_value_bound(ds: Seq<u8>)
    requires
        all_digits(ds),
    ensures
        digits_value(ds) < pow10(ds.len()),
    decreases ds.len(),
{
    if ds.len() > 0 {
        lemma_digits_value_bound(ds.drop_last());
    }
}

pub proof fn lemma_digits_value_zeros(n: nat)
    ensures
        digits_value(zeros(n)) == 0,
    decreases n,
{
    if n > 0 {
        assert(zeros(n).drop_last() == zeros((n - 1) as nat));
        lemma_digits_value_zeros((n - 1) as nat);
    }
}

/// Digits that start with a non-zero digit write a number of at least
/// `10^(n-1)`.
pub proof fn lemma_digits_value_lower_bound(ds: Seq<u8>)
    requires
        ds.len() > 0,
        ds[0] != 0,
    ensures
        digits_value(ds) >= pow10((ds.len() - 1) as nat),
{
    let head = seq![ds[0]];
    let tail = ds.drop_first();
    assert(ds == head + tail);
    lemma_digits_value_concat(head, tail);
    assert(head.drop_last() == Seq::<u8>::empty());
    assert(digits_value(head) == ds[0] as nat) by {
        reveal_with_fuel(digits_value, 2);
    }
    let p = pow10(tail.len());
    assert(ds[0] as nat * p >= p) by (nonlinear_arith)
        requires
            ds[0] as nat >= 1,
    ;
}

/// Of two digit strings of one length, the one with the smaller digit at the
/// first place where they differ writes the smaller number.
pub proof fn lemma_first_difference(a: Seq<u8>, b: Seq<u8>, i: int)
    requires
        a.len() == b.len(),
        all_digits(a),
        all_digits(b),
        0 <= i < a.len(),
        a.subrange(0, i) == b.subrange(0, i),
        a[i] < b[i],
    ensures
        digits_value(a) < digits_value(b),
{
    let n = a.len() as int;
    let pa = a.subrange(0, i + 1);
    let pb = b.subrange(0, i + 1);
    let sa = a.subrange(i + 1, n);
    let sb = b.subrange(i + 1, n);
    assert(a == pa + sa);
    assert(b == pb + sb);
    lemma_digits_value_concat(pa, sa);
    lemma_digits_value_concat(pb, sb);
    assert(pa.drop_last() == a.subrange(0, i));
    assert(pb.drop_last() == b.subrange(0, i));
    assert(pa.last() == a[i] && pb.last() == b[i]);
    lemma_digits_value_bound(sa);
    let p = pow10(sa.len());
    let u = digits_value(pa);
    let v = digits_value(pb);
    assert(u + 1 <= v);
    assert((u + 1) * p <= v * p) by (nonlinear_arith)
        requires
            u + 1 <= v,
            p >= 0,
    ;
    assert((u + 1) * p == u * p + p) by (nonlinear_arith);
}

/// Removing padding zeros leaves digits that neither start nor end with one.
pub proof fn lemma_normalize_canonical(negative: bool, whole: Seq<u8>, fraction: Seq<u8>)
    requires
        all_digits(whole),
        all_digits(fraction),
    ensures
        normalize(negative, whole, fraction).canonical(),
{
    lemma_strip_leading_zeros(whole);
    lemma_strip_trailing_zeros(fraction);
}

pub proof fn lemma_strip_leading_zeros(ds: Seq<u8>)
    requires
        all_digits(ds),
    ensures
        all_digits(strip_leading_zeros(ds)),
        strip_leading_zeros(ds).len() > 0 ==> strip_leading_zeros(ds)[0] != 0,
        digits_value(strip_leading_zeros(ds)) == digits_value(ds),
    decreases ds.len(),
{
    if ds.len() > 0 && ds[0] == 0 {
        let head = seq![ds[0]];
        let tail = ds.drop_first();
        lemma_strip_leading_zeros(tail);
        assert(ds == head + tail);
        lemma_digits_value_concat(head, tail);
        assert(head.drop_last() == Seq::<u8>::empty());
        assert(digits_value(head) == 0) by {
            reveal_with_fuel(digits_value, 2);
        }
        assert(0 * pow10(tail.len()) == 0) by (nonlinear_arith);
    }
}

pub proof fn lemma_strip_trailing_zeros(ds: Seq<u8>)
    requires
        all_digits(ds),
    ensures
        all_digits(strip_trailing_zeros(ds)),
        strip_trailing_zeros(ds).len() <= ds.len(),
        strip_trailing_zeros(ds).len() > 0 ==> strip_trailing_zeros(ds).last() != 0,
        strip_trailing_zeros(ds) + zeros((ds.len() - strip_trailing_zeros(ds).len()) as nat)
            == ds,
    decreases ds.len(),
{
    if ds.len() > 0 && ds.last() == 0 {
        let front = ds.drop_last();
        lemma_strip_trailing_zeros(front);
        let st = strip_trailing_zeros(front);
        assert(st + zeros((ds.len() - st.len()) as nat) =~= (st + zeros(
            (front.len() - st.len()) as nat,
        )).push(0u8));
        assert(front.push(0u8) == ds);
    } else {
        assert(ds + zeros(0) == ds);
    }
}

/// Removing padding zeros does not change the value: for every `k` of at least
/// the number of fraction digits given, the normalized number times `10^k` is
/// the number written by the given digits times `10^(k - fraction.len())`.
pub proof fn lemma_normalize_value(negative: bool, whole: Seq<u8>, fraction: Seq<u8>, k: nat)
    requires
        all_digits(whole),
        all_digits(fraction),
        k >= fraction.len(),
    ensures
        normalize(negative, whole, fraction).magnitude(k) == digits_value(whole + fraction)
            * pow10((k - fraction.len()) as nat),
{
    let w = strip_leading_zeros(whole);
    let f = strip_trailing_zeros(fraction);
    lemma_strip_leading_zeros(whole);
    lemma_strip_trailing_zeros(fraction);
    let pad = (fraction.len() - f.len()) as nat;
    let rest = (k - fraction.len()) as nat;
    lemma_digits_value_concat(w, f);
    lemma_digits_value_concat(whole, fraction);
    lemma_digits_value_concat(f, zeros(pad));
    lemma_digits_value_zeros(pad);
    lemma_pow10_add(f.len(), pad);
    lemma_pow10_add(pad, rest);
    let dw = digits_value(whole);
    let df = digits_value(f);
    let pf = pow10(f.len());
    let pp = pow10(pad);
    let pr = pow10(rest);
    assert(digits_value(fraction) == df * pp);
    assert(pow10(fraction.len()) == pf * pp);
    assert(pow10((k - f.len()) as nat) == pp * pr);
    assert((dw * pf + df) * (pp * pr) == (dw * (pf * pp) + df * pp) * pr) by (nonlinear_arith);
}

pub proof fn lemma_pow10_add(m: nat, n: nat)
    ensures
        pow10(m + n) == pow10(m) * pow10(n),
    decreases m,
{
    if m == 0 {
        assert(1 * pow10(n) == pow10(n)) by (nonlinear_arith);
    } else {
        lemma_pow10_add((m - 1) as nat, n);
        let a = pow10((m - 1) as nat);
        let b = pow10(n);
        assert(10 * (a * b) == (10 * a) * b) by (nonlinear_arith);
    }
}

/// `a` with zeros appended up to a common number of fraction digits writes
/// `a.magnitude(k)`.
pub proof fn lemma_magnitude_padded(a: DecimalView, k: nat)
    requires
        k >= a.scale(),
    ensures
        a.magnitude(k) == digits_value(a.padded(k)),
{
    let pad = (k - a.fraction.len()) as nat;
    lemma_digits_value_concat(a.whole + a.fraction, zeros(pad));
    lemma_digits_value_zeros(pad);
}

impl DecimalView {
    /// All digits, with zeros appended so that `k` of them follow the point.
    pub open spec fn padded(self, k: nat) -> Seq<u8> {
        self.whole + self.fraction + zeros((k - self.fraction.len()) as nat)
    }
}

/// An exact decimal number.
#[derive(Debug, PartialEq, Eq)]
pub struct Decimal {
    negative: bool,
    whole: Vec<u8>,
    fraction: Vec<u8>,
}

impl View for Decimal {
    type V = DecimalView;

    closed spec fn view(&self) -> DecimalView {
        DecimalView { negative: self.negative, whole: self.whole@, fraction: self.fraction@ }
    }
}

impl Clone for Decimal {
    fn clone(&self) -> (r: Self)
        ensures
            r@ == self@,
    {
        proof {
            use_type_invariant(self);
        }
        Decimal {
            negative: self.negative,
            whole: self.whole.clone(),
            fraction: self.fraction.clone(),
        }
    }
}

fn only_digits(ds: &Vec<u8>) -> (b: bool)
    ensures
        b == all_digits(ds@),
{
    let mut i: usize = 0;
    while i < ds.len()
        invariant
            i <= ds.len(),
            forall|j: int| 0 <= j < i ==> ds@[j] < 10,
        decreases ds.len() - i,
    {
        if ds[i] >= 10 {
            return false;
        }
        i += 1;
    }
    true
}

fn without_leading_zeros(ds: &Vec<u8>) -> (r: Vec<u8>)
    ensures
        r@ == strip_leading_zeros(ds@),
{
    let mut i: usize = 0;
    assert(ds@.skip(0) == ds@);
    while i < ds.len() && ds[i] == 0
        invariant
            i <= ds.len(),
            strip_leading_zeros(ds@) == strip_leading_zeros(ds@.skip(i as int)),
        decreases ds.len() - i,
    {
        assert(ds@.skip(i as int).drop_first() == ds@.skip(i + 1));
        i += 1;
    }
    let mut r: Vec<u8> = Vec::new();
    let mut j: usize = i;
    while j < ds.len()
        invariant
            i <= j <= ds.len(),
            r@ == ds@.subrange(i as int, j as int),
        decreases ds.len() - j,
    {
        r.push(ds[j]);
        j += 1;
    }
    assert(ds@.subrange(i as int, ds.len() as int) == ds@.skip(i as int));
    r
}

fn without_trailing_zeros(ds: Vec<u8>) -> (r: Vec<u8>)
    ensures
        r@ == strip_trailing_zeros(ds@),
{
    let mut ds = ds;
    let ghost full = ds@;
    let mut n: usize = ds.len();
    assert(full.take(n as int) == full);
    while n > 0 && ds[n - 1] == 0
        invariant
            ds@ == full,
            n <= full.len(),
            strip_trailing_zeros(full) == strip_trailing_zeros(full.take(n as int)),
        decreases n,
    {
        assert(full.take(n as int).drop_last() == full.take(n - 1));
        n -= 1;
    }
    ds.truncate(n);
    assert(ds@ == full.take(n as int));
    ds
}

/// The end of the run of digit characters that starts at `from`.
pub fn scan_digits(chars: &Vec<char>, from: usize) -> (end: usize)
    requires
        from <= chars.len(),
    ensures
        end == scan_while(chars@, from as int, digit_chars()),
        from <= end <= chars.len(),
{
    let mut i: usize = from;
    while i < chars.len() && chars[i] >= '0' && chars[i] <= '9'
        invariant
            from <= i <= chars.len(),
            scan_while(chars@, from as int, digit_chars()) == scan_while(
                chars@,
                i as int,
                digit_chars(),
            ),
        decreases chars.len() - i,
    {
        i += 1;
    }
    i
}

/// The digits written by `chars[from..to]`, which must all be digit characters.
pub(crate) fn digits_between(chars: &Vec<char>, from: usize, to: usize) -> (ds: Vec<u8>)
    requires
        from <= to <= chars.len(),
        forall|i: int| from <= i < to ==> is_digit_char(#[trigger] chars@[i]),
    ensures
        ds@ == digit_values(chars@.subrange(from as int, to as int)),
        all_digits(ds@),
{
    let mut ds: Vec<u8> = Vec::new();
    let mut i: usize = from;
    while i < to
        invariant
            from <= i <= to <= chars.len(),
            forall|i: int| from <= i < to ==> is_digit_char(#[trigger] chars@[i]),
            ds@ == digit_values(chars@.subrange(from as int, i as int)),
            all_digits(ds@),
        decreases to - i,
    {
        let c = chars[i];
        assert(is_digit_char(chars@[i as int]));
        let d: u8 = ((c as u32) - 48) as u8;
        ds.push(d);
        i += 1;
        assert(ds@ =~= digit_values(chars@.subrange(from as int, i as int)));
    }
    ds
}

fn digit_to_char(d: u8) -> (c: char)
    requires
        d < 10,
    ensures
        c == digit_char(d),
{
    (d + 48) as char
}

impl Decimal {
    #[verifier::type_invariant]
    spec fn well_formed(self) -> bool {
        self@.canonical()
    }

    /// The number with the given sign and digits; `None` if an element of
    /// `whole` or `fraction` is not a digit. Padding zeros are dropped, which
    /// leaves the value as the digits write it.
    pub fn from_digits(negative: bool, whole: Vec<u8>, fraction: Vec<u8>) -> (r: Option<Decimal>)
        ensures
            all_digits(whole@) && all_digits(fraction@) ==> (r matches Some(d) && d@ == normalize(
                negative,
                whole@,
                fraction@,
            )),
            !(all_digits(whole@) && all_digits(fraction@)) ==> r is None,
            r matches Some(d) ==> d@.magnitude(fraction@.len()) == digits_value(
                whole@ + fraction@,
            ),
    {
        if !only_digits(&whole) || !only_digits(&fraction) {
            return None;
        }
        Some(Decimal::of_digits(negative, whole, fraction))
    }

    /// The number with the given sign and digits, padding zeros dropped.
    pub(crate) fn of_digits(negative: bool, whole: Vec<u8>, fraction: Vec<u8>) -> (d: Decimal)
        requires
            all_digits(whole@),
            all_digits(fraction@),
        ensures
            d@ == normalize(negative, whole@, fraction@),
            d@.magnitude(fraction@.len()) == digits_value(whole@ + fraction@),
    {
        proof {
            lemma_normalize_value(negative, whole@, fraction@, fraction@.len());
            assert(pow10(0) == 1);
            assert(digits_value(whole@ + fraction@) * 1 == digits_value(whole@ + fraction@))
                by (nonlinear_arith);
            lemma_normalize_canonical(negative, whole@, fraction@);
        }
        let w = without_leading_zeros(&whole);
        let f = without_trailing_zeros(fraction);
        let nonzero = w.len() > 0 || f.len() > 0;
        Decimal { negative: negative && nonzero, whole: w, fraction: f }
    }

    /// Zero.
    pub fn zero() -> (r: Decimal)
        ensures
            r@ == (DecimalView { negative: false, whole: Seq::empty(), fraction: Seq::empty() }),
    {
        Decimal { negative: false, whole: Vec::new(), fraction: Vec::new() }
    }

    /// Whether the number has no digits after the point.
    pub fn is_integer(&self) -> (b: bool)
        ensures
            b == self@.is_integer(),
    {
        self.fraction.len() == 0
    }

    /// Whether the number is below zero.
    pub fn is_negative(&self) -> (b: bool)
        ensures
            b == self@.negative,
    {
        self.negative
    }

    fn compare_magnitude(&self, other: &Decimal) -> (r: Relation)
        ensures
            ({
                let k = if self@.scale() >= other@.scale() {
                    self@.scale()
                } else {
                    other@.scale()
                };
                r == Relation::of(self@.magnitude(k) as int, other@.magnitude(k) as int)
            }),
    {
        proof {
            use_type_invariant(self);
            use_type_invariant(other);
        }
        let ghost k: nat = if self@.scale() >= other@.scale() {
            self@.scale()
        } else {
            other@.scale()
        };
        let ghost a = self@.padded(k);
        let ghost b = other@.padded(k);
        proof {
            lemma_magnitude_padded(self@, k);
            lemma_magnitude_padded(other@, k);
        }
        assert(all_digits(a) && all_digits(b));
        let wa = self.whole.len();
        let wb = other.whole.len();
        if wa < wb {
            proof {
                lemma_digits_value_bound(a);
                lemma_digits_value_lower_bound(b);
                lemma_pow10_monotonic(a.len(), (b.len() - 1) as nat);
            }
            return Relation::Less;
        }
        if wa > wb {
            proof {
                lemma_digits_value_bound(b);
                lemma_digits_value_lower_bound(a);
                lemma_pow10_monotonic(b.len(), (a.len() - 1) as nat);
            }
            return Relation::Greater;
        }
        let mut i: usize = 0;
        while i < wa
            invariant
                i <= wa,
                wa == wb,
                wa == self.whole.len(),
                wb == other.whole.len(),
                a == self@.padded(k),
                b == other@.padded(k),
                all_digits(a),
                all_digits(b),
                k == (if self@.scale() >= other@.scale() {
                    self@.scale()
                } else {
                    other@.scale()
                }),
                k >= self@.scale(),
                k >= other@.scale(),
                self@.canonical(),
                other@.canonical(),
                digits_value(a) == self@.magnitude(k),
                digits_value(b) == other@.magnitude(k),
                a.subrange(0, i as int) == b.subrange(0, i as int),
            decreases wa - i,
        {
            let x = self.whole[i];
            let y = other.whole[i];
            assert(a[i as int] == x && b[i as int] == y);
            if x < y {
                proof {
                    lemma_first_difference(a, b, i as int);
                }
                return Relation::Less;
            }
            if x > y {
                proof {
                    assert(b.subrange(0, i as int) == a.subrange(0, i as int));
                    lemma_first_difference(b, a, i as int);
                }
                return Relation::Greater;
            }
            assert(a.subrange(0, i + 1) == a.subrange(0, i as int).push(x));
            assert(b.subrange(0, i + 1) == b.subrange(0, i as int).push(y));
            i += 1;
        }
        let fa = self.fraction.len();
        let fb = other.fraction.len();
        let mut j: usize = 0;
        while j < fa || j < fb
            invariant
                wa == wb,
                wa == self.whole.len(),
                wb == other.whole.len(),
                fa == self.fraction.len(),
                fb == other.fraction.len(),
                j <= k,
                a == self@.padded(k),
                b == other@.padded(k),
                all_digits(a),
                all_digits(b),
                k == (if self@.scale() >= other@.scale() {
                    self@.scale()
                } else {
                    other@.scale()
                }),
                k >= self@.scale(),
                k >= other@.scale(),
                k == self@.scale() || k == other@.scale(),
                self@.canonical(),
                other@.canonical(),
                digits_value(a) == self@.magnitude(k),
                digits_value(b) == other@.magnitude(k),
                a.subrange(0, wa + j) == b.subrange(0, wa + j),
            decreases k - j,
        {
            let x: u8 = if j < fa {
                self.fraction[j]
            } else {
                0
            };
            let y: u8 = if j < fb {
                other.fraction[j]
            } else {
                0
            };
            assert(a[wa + j] == x && b[wa + j] == y);
            if x < y {
                proof {
                    lemma_first_difference(a, b, wa + j);
                }
                return Relation::Less;
            }
            if x > y {
                proof {
                    assert(b.subrange(0, wa + j) == a.subrange(0, wa + j));
                    lemma_first_difference(b, a, wa + j);
                }
                return Relation::Greater;
            }
            assert(a.subrange(0, wa + j + 1) == a.subrange(0, wa + j).push(x));
            assert(b.subrange(0, wa + j + 1) == b.subrange(0, wa + j).push(y));
            j += 1;
        }
        assert(a.len() == wa + k && j == k);
        assert(a == a.subrange(0, wa + j));
        assert(b == b.subrange(0, wa + j));
        Relation::Equal
    }

    /// Compares the values of two numbers.
    pub fn compare(&self, other: &Decimal) -> (r: Relation)
        ensures
            r == self@.relation(other@),
    {
        proof {
            use_type_invariant(self);
            use_type_invariant(other);
        }
        let ghost k: nat = if self@.scale() >= other@.scale() {
            self@.scale()
        } else {
            other@.scale()
        };
        proof {
            lemma_positive_magnitude(self@, k);
            lemma_positive_magnitude(other@, k);
        }
        if self.negative {
            if other.negative {
                other.compare_magnitude(self)
            } else {
                Relation::Less
            }
        } else if other.negative {
            Relation::Greater
        } else {
            self.compare_magnitude(other)
        }
    }

    /// The decimal notation of the number, which reads back as the number.
    pub fn to_text(&self) -> (s: String)
        ensures
            s@ == self@.text(),
            parse_spec(s@, true) == Some(self@),
            self@.is_integer() ==> parse_spec(s@, false) == Some(self@),
    {
        proof {
            use_type_invariant(self);
            lemma_text_reads_back(self@);
        }
        let mut s = String::new();
        if self.negative {
            s.push('-');
        }
        let ghost sign = s@;
        if self.whole.len() == 0 {
            s.push('0');
        } else {
            let mut i: usize = 0;
            while i < self.whole.len()
                invariant
                    i <= self.whole.len(),
                    all_digits(self.whole@),
                    s@ == sign + digits_text(self.whole@.take(i as int)),
                decreases self.whole.len() - i,
            {
                let c = digit_to_char(self.whole[i]);
                s.push(c);
                i += 1;
                assert(digits_text(self.whole@.take(i as int)) =~= digits_text(
                    self.whole@.take(i - 1),
                ).push(c));
            }
            assert(self.whole@.take(i as int) == self.whole@);
        }
        let ghost front = s@;
        if self.fraction.len() > 0 {
            s.push('.');
            let mut i: usize = 0;
            while i < self.fraction.len()
                invariant
                    i <= self.fraction.len(),
                    all_digits(self.fraction@),
                    s@ == front + seq!['.'] + digits_text(self.fraction@.take(i as int)),
                decreases self.fraction.len() - i,
            {
                let c = digit_to_char(self.fraction[i]);
                s.push(c);
                i += 1;
                assert(digits_text(self.fraction@.take(i as int)) =~= digits_text(
                    self.fraction@.take(i - 1),
                ).push(c));
            }
            assert(self.fraction@.take(i as int) == self.fraction@);
            assert(s@ =~= self@.text());
        } else {
            assert(s@ =~= self@.text());
        }
        s
    }

    /// Reads a number from its characters; see [`parse_spec`].
    pub fn parse_chars(chars: &Vec<char>, allow_fraction: bool) -> (r: Option<Decimal>)
        ensures
            match parse_spec(chars@, allow_fraction) {
                Some(v) => r matches Some(d) && d@ == v,
                None => r is None,
            },
    {
        let n = chars.len();
        let negative = n > 0 && chars[0] == '-';
        let start: usize = if n > 0 && (chars[0] == '-' || chars[0] == '+') {
            1
        } else {
            0
        };
        let point = scan_digits(chars, start);
        proof {
            lemma_scan_while(chars@, start as int, digit_chars());
        }
        if point == n {
            if point > start {
                let whole = digits_between(chars, start, point);
                Some(Decimal::of_digits(negative, whole, Vec::new()))
            } else {
                None
            }
        } else if allow_fraction && chars[point] == '.' {
            let end = scan_digits(chars, point + 1);
            proof {
                lemma_scan_while(chars@, point + 1, digit_chars());
            }
            if end == n && end - start > 1 {
                let whole = digits_between(chars, start, point);
                let fraction = digits_between(chars, point + 1, end);
                Some(Decimal::of_digits(negative, whole, fraction))
            } else {
                None
            }
        } else {
            None
        }
    }

    /// Reads a number that may have digits after a point.
    pub fn parse(text: &str) -> (r: Option<Decimal>)
        ensures
            match parse_spec(text@, true) {
                Some(v) => r matches Some(d) && d@ == v,
                None => r is None,
            },
    {
        let chars = chars_of(text);
        Decimal::parse_chars(&chars, true)
    }

    /// Reads a whole number.
    pub fn parse_integer(text: &str) -> (r: Option<Decimal>)
        ensures
            match parse_spec(text@, false) {
                Some(v) => r matches Some(d) && d@ == v,
                None => r is None,
            },
    {
        let chars = chars_of(text);
        Decimal::parse_chars(&chars, false)
    }
}

/// The characters that write digits are digit characters and write those
/// digits.
pub proof fn lemma_digits_text(ds: Seq<u8>)
    requires
        all_digits(ds),
    ensures
        digit_values(digits_text(ds)) == ds,
        forall|i: int| 0 <= i < ds.len() ==> is_digit_char(#[trigger] digits_text(ds)[i]),
{
    assert forall|i: int| 0 <= i < ds.len() implies is_digit_char(#[trigger] digits_text(ds)[i])
        && digit_values(digits_text(ds))[i] == ds[i] by {
        let c = digit_char(ds[i]);
        assert(c as int == ds[i] as int + 48);
    }
    assert(digit_values(digits_text(ds)) =~= ds);
}

/// The notation of a number reads back as that number; as a whole number
/// too, if it is one.
pub proof fn lemma_text_reads_back(d: DecimalView)
    requires
        d.canonical(),
    ensures
        parse_spec(d.text(), true) == Some(d),
        d.is_integer() ==> parse_spec(d.text(), false) == Some(d),
{
    let t = d.text();
    let sign = if d.negative {
        seq!['-']
    } else {
        Seq::<char>::empty()
    };
    let whole = if d.whole.len() == 0 {
        seq!['0']
    } else {
        digits_text(d.whole)
    };
    let fraction = if d.fraction.len() == 0 {
        Seq::<char>::empty()
    } else {
        seq!['.'] + digits_text(d.fraction)
    };
    assert(t == sign + whole + fraction);
    lemma_digits_text(d.whole);
    lemma_digits_text(d.fraction);
    let start: int = if d.negative {
        1
    } else {
        0
    };
    let point = start + whole.len();
    assert(forall|i: int| 0 <= i < whole.len() ==> is_digit_char(#[trigger] whole[i]));
    assert(forall|i: int| start <= i < point ==> t[i] == whole[i - start]);
    assert(is_digit_char(t[start]));
    assert(t[0] != '+');
    assert(!d.negative ==> t[0] != '-');
    assert forall|i: int| start <= i < point implies digit_chars()(#[trigger] t[i]) by {
        assert(is_digit_char(whole[i - start]));
    }
    if d.fraction.len() > 0 {
        assert(t[point] == '.');
        assert(!digit_chars()(t[point]));
    }
    lemma_scan_while_exact(t, start, point, digit_chars());
    assert(t.subrange(start, point) == whole);
    let read_whole = digit_values(whole);
    assert(strip_leading_zeros(read_whole) == d.whole) by {
        if d.whole.len() == 0 {
            assert(read_whole == seq![0u8]);
            assert(read_whole.drop_first() == Seq::<u8>::empty());
            reveal_with_fuel(strip_leading_zeros, 2);
        }
    }
    assert(strip_trailing_zeros(Seq::<u8>::empty()) == Seq::<u8>::empty());
    if d.fraction.len() > 0 {
        let end = t.len() as int;
        assert forall|i: int| point + 1 <= i < end implies digit_chars()(#[trigger] t[i]) by {
            assert(t[i] == digits_text(d.fraction)[i - point - 1]);
            assert(is_digit_char(digits_text(d.fraction)[i - point - 1]));
        }
        lemma_scan_while_exact(t, point + 1, end, digit_chars());
        assert(t.subrange(point + 1, end) == digits_text(d.fraction));
        assert(strip_trailing_zeros(d.fraction) == d.fraction);
        assert(normalize(d.negative, read_whole, d.fraction) == d);
    } else {
        assert(point == t.len());
        assert(d.fraction == Seq::<u8>::empty());
        assert(normalize(d.negative, read_whole, Seq::<u8>::empty()) == d);
    }
}

/// With more digits after the point the scaled value grows by a power of
/// ten.
pub proof fn lemma_scaled_further(a: DecimalView, k: nat, more: nat)
    requires
        k >= a.scale(),
    ensures
        a.scaled(k + more) == a.scaled(k) * pow10(more),
{
    let d = digits_value(a.whole + a.fraction);
    let p = pow10((k - a.fraction.len()) as nat);
    let q = pow10(more);
    lemma_pow10_add((k - a.fraction.len()) as nat, more);
    assert(d * (p * q) == (d * p) * q) by (nonlinear_arith);
    assert(-((d * p) as int) * q == -(((d * p) * q) as int)) by (nonlinear_arith);
}

/// Two numbers stand to each other as their values scaled by any common
/// power of ten that makes both whole.
pub proof fn lemma_relation_at(a: DecimalView, b: DecimalView, k: nat)
    requires
        k >= a.scale(),
        k >= b.scale(),
    ensures
        a.relation(b) == Relation::of(a.scaled(k), b.scaled(k)),
{
    let base = if a.scale() >= b.scale() {
        a.scale()
    } else {
        b.scale()
    };
    let more = (k - base) as nat;
    lemma_scaled_further(a, base, more);
    lemma_scaled_further(b, base, more);
    lemma_pow10_positive(more);
    let x = a.scaled(base);
    let y = b.scaled(base);
    let q = pow10(more) as int;
    assert(x < y ==> x * q < y * q) by (nonlinear_arith)
        requires
            q > 0,
    ;
    assert(x > y ==> x * q > y * q) by (nonlinear_arith)
        requires
            q > 0,
    ;
}

/// The order of numbers is transitive.
pub proof fn lemma_relation_chains(a: DecimalView, b: DecimalView, c: DecimalView)
    ensures
        Relation::chains(a.relation(b), b.relation(c), a.relation(c)),
{
    let ab = if a.scale() >= b.scale() {
        a.scale()
    } else {
        b.scale()
    };
    let k = if ab >= c.scale() {
        ab
    } else {
        c.scale()
    };
    lemma_relation_at(a, b, k);
    lemma_relation_at(b, c, k);
    lemma_relation_at(a, c, k);
}

/// A canonical number has magnitude zero only if it has no digits.
pub proof fn lemma_positive_magnitude(a: DecimalView, k: nat)
    requires
        a.canonical(),
        k >= a.scale(),
    ensures
        a.whole.len() + a.fraction.len() > 0 ==> a.magnitude(k) > 0,
{
    if a.whole.len() + a.fraction.len() > 0 {
        let ds = a.whole + a.fraction;
        let p = pow10((k - a.fraction.len()) as nat);
        lemma_pow10_positive((k - a.fraction.len()) as nat);
        if a.whole.len() > 0 {
            lemma_digits_value_lower_bound(ds);
            lemma_pow10_positive((ds.len() - 1) as nat);
        } else {
            assert(ds.last() == a.fraction.last());
        }
        assert(digits_value(ds) > 0);
        assert(digits_value(ds) * p > 0) by (nonlinear_arith)
            requires
                digits_value(ds) > 0,
                p > 0,
        ;
    }
}

} // verus!
