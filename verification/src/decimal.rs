//! Decimal numbers of any length, kept as digits: reading, ordering, counting digits.

use vstd::prelude::*;

verus! {

/// What a decimal says: a sign, its digits from the most significant on, and
/// how many of them stand behind the point.
pub struct DecimalView {
    pub negative: bool,
    pub digits: Seq<u8>,
    pub scale: nat,
}

/// A decimal number read from its lexical form.
pub struct Decimal {
    negative: bool,
    digits: Vec<u8>,
    scale: usize,
}

pub open spec fn is_digit(c: char) -> bool {
    c == '0' || c == '1' || c == '2' || c == '3' || c == '4' || c == '5' || c == '6' || c == '7' || c == '8'
        || c == '9'
}

pub open spec fn digit_value(c: char) -> u8 {
    if c == '1' {
        1
    } else if c == '2' {
        2
    } else if c == '3' {
        3
    } else if c == '4' {
        4
    } else if c == '5' {
        5
    } else if c == '6' {
        6
    } else if c == '7' {
        7
    } else if c == '8' {
        8
    } else if c == '9' {
        9
    } else {
        0
    }
}

fn digit_of(c: char) -> (d: Option<u8>)
    ensures
        d.is_some() == is_digit(c),
        d matches Some(v) ==> v == digit_value(c) && v < 10,
{
    if c == '0' {
        Some(0)
    } else if c == '1' {
        Some(1)
    } else if c == '2' {
        Some(2)
    } else if c == '3' {
        Some(3)
    } else if c == '4' {
        Some(4)
    } else if c == '5' {
        Some(5)
    } else if c == '6' {
        Some(6)
    } else if c == '7' {
        Some(7)
    } else if c == '8' {
        Some(8)
    } else if c == '9' {
        Some(9)
    } else {
        None
    }
}

/// 1 where the text opens with a sign, else 0.
pub open spec fn sign_len(s: Seq<char>) -> int {
    if s.len() > 0 && (s[0] == '+' || s[0] == '-') {
        1
    } else {
        0
    }
}

/// The offset of the first point at or after `from`, or the length where there is none.
pub open spec fn dot_index(s: Seq<char>, from: int) -> int
    decreases s.len() - from,
{
    if from < 0 || from >= s.len() {
        s.len() as int
    } else if s[from] == '.' {
        from
    } else {
        dot_index(s, from + 1)
    }
}

pub open spec fn all_digits(s: Seq<char>, lo: int, hi: int) -> bool {
    forall|i: int| lo <= i < hi ==> is_digit(#[trigger] s[i])
}

/// How many digits the text holds, the sign and the point left out.
pub open spec fn digit_count(s: Seq<char>) -> int {
    let d = dot_index(s, sign_len(s));
    if d < s.len() {
        s.len() - sign_len(s) - 1
    } else {
        s.len() - sign_len(s)
    }
}

/// The text is a decimal numeral: an optional sign, digits, and at most one
/// point among them; at least one digit in all.
pub open spec fn is_decimal(s: Seq<char>) -> bool {
    let b = sign_len(s);
    let d = dot_index(s, b);
    all_digits(s, b, d) && all_digits(s, d + 1, s.len() as int) && digit_count(s) >= 1
}

/// The text is an integer numeral: an optional sign and digits, at least one.
pub open spec fn is_integer(s: Seq<char>) -> bool {
    is_decimal(s) && dot_index(s, sign_len(s)) == s.len()
}

/// The number that a decimal numeral writes down.
pub open spec fn decimal_of(s: Seq<char>) -> DecimalView {
    let b = sign_len(s);
    let d = dot_index(s, b);
    DecimalView {
        negative: s.len() > 0 && s[0] == '-',
        digits: Seq::new(
            digit_count(s) as nat,
            |i: int|
                if b + i < d {
                    digit_value(s[b + i])
                } else {
                    digit_value(s[b + i + 1])
                },
        ),
        scale: if d < s.len() {
            (s.len() - d - 1) as nat
        } else {
            0
        },
    }
}

proof fn lemma_dot(s: Seq<char>, from: int, i: int)
    requires
        0 <= from <= i <= s.len(),
        forall|t: int| from <= t < i ==> s[t] != '.',
    ensures
        dot_index(s, from) == dot_index(s, i),
        i <= dot_index(s, i) <= s.len(),
    decreases i - from,
{
    if from < i {
        lemma_dot(s, from + 1, i);
    } else {
        lemma_dot_bound(s, i);
    }
}

proof fn lemma_dot_bound(s: Seq<char>, i: int)
    requires
        0 <= i <= s.len(),
    ensures
        i <= dot_index(s, i) <= s.len(),
        dot_index(s, i) < s.len() ==> s[dot_index(s, i)] == '.',
    decreases s.len() - i,
{
    if i < s.len() && s[i] != '.' {
        lemma_dot_bound(s, i + 1);
    }
}

impl Decimal {
    #[verifier::type_invariant]
    spec fn inv(self) -> bool {
        &&& self.digits@.len() >= 1
        &&& self.scale <= self.digits@.len()
        &&& forall|i: int| 0 <= i < self.digits@.len() ==> self.digits@[i] < 10
    }

    pub closed spec fn view(&self) -> DecimalView {
        DecimalView { negative: self.negative, digits: self.digits@, scale: self.scale as nat }
    }

    /// Reads a decimal numeral; with `fraction` unset a point is not taken.
    pub fn parse(text: &Vec<char>, fraction: bool) -> (r: Option<Decimal>)
        ensures
            r.is_some() == (if fraction {
                is_decimal(text@)
            } else {
                is_integer(text@)
            }),
            r matches Some(d) ==> d@ == decimal_of(text@) && well_formed(d@),
    {
        let n = text.len();
        let mut i: usize = 0;
        let mut negative = false;
        if n > 0 && (text[0] == '+' || text[0] == '-') {
            negative = text[0] == '-';
            i = 1;
        }
        let ghost b = i as int;
        let mut digits: Vec<u8> = Vec::new();
        while i < n && text[i] != '.'
            invariant
                n == text@.len(),
                b == sign_len(text@),
                b <= i <= n,
                digits@.len() == i - b,
                forall|t: int| b <= t < i ==> text@[t] != '.' && is_digit(#[trigger] text@[t]),
                forall|t: int| 0 <= t < digits@.len() ==> digits@[t] == digit_value(text@[b + t]) && digits@[t] < 10,
            decreases n - i,
        {
            match digit_of(text[i]) {
                Some(v) => {
                    digits.push(v);
                },
                None => {
                    proof {
                        lemma_dot(text@, b, i + 1);
                    }
                    return None;
                },
            }
            i += 1;
        }
        proof {
            lemma_dot(text@, b, i as int);
            lemma_dot_bound(text@, i as int);
        }
        let dot = i;
        if i < n {
            if !fraction {
                return None;
            }
            i += 1;
            while i < n
                invariant
                    n == text@.len(),
                    b == sign_len(text@),
                    b <= dot < i <= n,
                    dot == dot_index(text@, b),
                    digits@.len() == i - b - 1,
                    all_digits(text@, b, dot as int),
                    forall|t: int| dot < t < i ==> is_digit(#[trigger] text@[t]),
                    forall|t: int|
                        0 <= t < digits@.len() ==> digits@[t] < 10 && digits@[t] == (if b + t < dot {
                            digit_value(text@[b + t])
                        } else {
                            digit_value(text@[b + t + 1])
                        }),
                decreases n - i,
            {
                match digit_of(text[i]) {
                    Some(v) => {
                        digits.push(v);
                    },
                    None => {
                        return None;
                    },
                }
                i += 1;
            }
        }
        if digits.len() == 0 {
            return None;
        }
        let scale = if dot < n {
            n - dot - 1
        } else {
            0
        };
        let d = Decimal { negative, digits, scale };
        proof {
            assert(d@.digits =~= decimal_of(text@).digits);
        }
        Some(d)
    }
}

/// Every digit is below ten, there is at least one, and the scale counts some of them.
pub open spec fn well_formed(d: DecimalView) -> bool {
    &&& d.digits.len() >= 1
    &&& d.scale <= d.digits.len()
    &&& forall|i: int| 0 <= i < d.digits.len() ==> d.digits[i] < 10
}


pub open spec fn pow10(n: nat) -> nat
    decreases n,
{
    if n == 0 {
        1
    } else {
        10 * pow10((n - 1) as nat)
    }
}

/// The natural number that a row of digits writes down.
pub open spec fn magnitude(digits: Seq<u8>) -> nat
    decreases digits.len(),
{
    if digits.len() == 0 {
        0
    } else {
        magnitude(digits.drop_last()) * 10 + digits.last() as nat
    }
}

/// The number counted in units of ten to the minus `f`; `f` is at least the scale.
pub open spec fn units(d: DecimalView, f: nat) -> int {
    let m = (magnitude(d.digits) * pow10((f - d.scale) as nat)) as int;
    if d.negative {
        -m
    } else {
        m
    }
}

pub open spec fn common_scale(a: DecimalView, b: DecimalView) -> nat {
    if a.scale >= b.scale {
        a.scale
    } else {
        b.scale
    }
}

/// `a` is less than or equal to `b`, as numbers.
pub open spec fn le(a: DecimalView, b: DecimalView) -> bool {
    units(a, common_scale(a, b)) <= units(b, common_scale(a, b))
}

/// `a` is less than `b`, as numbers.
pub open spec fn lt(a: DecimalView, b: DecimalView) -> bool {
    units(a, common_scale(a, b)) < units(b, common_scale(a, b))
}

pub open spec fn zeros(n: nat) -> Seq<u8> {
    Seq::new(n, |i: int| 0u8)
}

pub open spec fn digits_below_ten(s: Seq<u8>) -> bool {
    forall|i: int| 0 <= i < s.len() ==> s[i] < 10
}

proof fn lemma_pow10_positive(n: nat)
    ensures
        pow10(n) >= 1,
    decreases n,
{
    if n > 0 {
        lemma_pow10_positive((n - 1) as nat);
    }
}

proof fn lemma_mag_concat(a: Seq<u8>, b: Seq<u8>)
    ensures
        magnitude(a + b) == magnitude(a) * pow10(b.len()) + magnitude(b),
    decreases b.len(),
{
    if b.len() == 0 {
        assert(a + b =~= a);
        assert(pow10(0) == 1);
        assert(magnitude(b) == 0);
    } else {
        assert((a + b).drop_last() =~= a + b.drop_last());
        assert((a + b).last() == b.last());
        lemma_mag_concat(a, b.drop_last());
        let x = magnitude(a) as int;
        let p = pow10(b.drop_last().len()) as int;
        let y = magnitude(b.drop_last()) as int;
        assert(pow10(b.len()) == 10 * p);
        assert(magnitude(a + b) == (x * p + y) * 10 + b.last() as int);
        assert(magnitude(b) == y * 10 + b.last() as int);
        assert((x * p + y) * 10 == x * (10 * p) + y * 10) by (nonlinear_arith);
    }
}

proof fn lemma_mag_zeros(n: nat)
    ensures
        magnitude(zeros(n)) == 0,
    decreases n,
{
    if n > 0 {
        assert(zeros(n).drop_last() =~= zeros((n - 1) as nat));
        lemma_mag_zeros((n - 1) as nat);
    }
}

proof fn lemma_mag_bound(s: Seq<u8>)
    requires
        digits_below_ten(s),
    ensures
        magnitude(s) < pow10(s.len()),
    decreases s.len(),
{
    if s.len() > 0 {
        lemma_mag_bound(s.drop_last());
    }
}

/// Of two rows of equal length, the one with the smaller digit at the first
/// difference writes the smaller number.
proof fn lemma_lex(x: Seq<u8>, y: Seq<u8>, p: int)
    requires
        x.len() == y.len(),
        digits_below_ten(x),
        digits_below_ten(y),
        0 <= p < x.len(),
        x.take(p) == y.take(p),
        x[p] < y[p],
    ensures
        magnitude(x) < magnitude(y),
{
    let rx = x.skip(p + 1);
    let ry = y.skip(p + 1);
    assert(x =~= x.take(p + 1) + rx);
    assert(y =~= y.take(p + 1) + ry);
    lemma_mag_concat(x.take(p + 1), rx);
    lemma_mag_concat(y.take(p + 1), ry);
    assert(x.take(p + 1).drop_last() =~= x.take(p));
    assert(y.take(p + 1).drop_last() =~= y.take(p));
    lemma_mag_bound(rx);
    let a = magnitude(x.take(p)) as int;
    let big = pow10(rx.len()) as int;
    let dx = x[p] as int;
    let dy = y[p] as int;
    let hx = a * 10 + dx;
    let hy = a * 10 + dy;
    assert(magnitude(x.take(p + 1)) == hx);
    assert(magnitude(y.take(p + 1)) == hy);
    assert((hx + 1) * big <= hy * big) by (nonlinear_arith)
        requires
            hx + 1 <= hy,
            big >= 0,
    ;
    assert((hx + 1) * big == hx * big + big) by (nonlinear_arith);
}

proof fn lemma_mag_positive(s: Seq<u8>, i: int)
    requires
        0 <= i < s.len(),
        s[i] != 0,
    ensures
        magnitude(s) > 0,
    decreases s.len(),
{
    if i < s.len() - 1 {
        lemma_mag_positive(s.drop_last(), i);
    }
}

proof fn lemma_padded(d: Seq<u8>, lead: nat, trail: nat)
    ensures
        magnitude(zeros(lead) + d + zeros(trail)) == magnitude(d) * pow10(trail),
{
    lemma_mag_concat(zeros(lead) + d, zeros(trail));
    lemma_mag_concat(zeros(lead), d);
    lemma_mag_zeros(lead);
    lemma_mag_zeros(trail);
    assert(0 * pow10(d.len()) == 0) by (nonlinear_arith);
}

/// Which side of zero a number lies on.
#[derive(Clone, Copy, PartialEq, Eq, Structural, Debug)]
pub enum Sign {
    Negative,
    Zero,
    Positive,
}

pub open spec fn sign_of(x: int) -> Sign {
    if x < 0 {
        Sign::Negative
    } else if x == 0 {
        Sign::Zero
    } else {
        Sign::Positive
    }
}

fn push_zeros(v: &mut Vec<u8>, n: usize)
    ensures
        final(v)@ == old(v)@ + zeros(n as nat),
{
    let mut i: usize = 0;
    assert(v@ =~= old(v)@ + zeros(0));
    while i < n
        invariant
            i <= n,
            v@ == old(v)@ + zeros(i as nat),
        decreases n - i,
    {
        v.push(0);
        assert(v@ =~= old(v)@ + zeros((i + 1) as nat));
        i += 1;
    }
}

/// The sign of the difference of the numbers that two rows of equal length write.
fn lexical(x: &Vec<u8>, y: &Vec<u8>) -> (r: Sign)
    requires
        x@.len() == y@.len(),
        digits_below_ten(x@),
        digits_below_ten(y@),
    ensures
        r == sign_of(magnitude(x@) - magnitude(y@)),
{
    let mut p: usize = 0;
    while p < x.len()
        invariant
            p <= x.len(),
            x@.len() == y@.len(),
            digits_below_ten(x@),
            digits_below_ten(y@),
            x@.take(p as int) == y@.take(p as int),
        decreases x.len() - p,
    {
        if x[p] < y[p] {
            proof {
                lemma_lex(x@, y@, p as int);
            }
            return Sign::Negative;
        }
        if x[p] > y[p] {
            proof {
                lemma_lex(y@, x@, p as int);
            }
            return Sign::Positive;
        }
        assert(x@.take(p + 1) =~= y@.take(p + 1)) by {
            assert(x@.take(p + 1) =~= x@.take(p as int).push(x@[p as int]));
            assert(y@.take(p + 1) =~= y@.take(p as int).push(y@[p as int]));
        }
        p += 1;
    }
    assert(x@ =~= x@.take(x@.len() as int));
    assert(y@ =~= y@.take(y@.len() as int));
    Sign::Zero
}

impl Decimal {
    fn padded(&self, lead: usize, trail: usize) -> (v: Vec<u8>)
        ensures
            v@ == zeros(lead as nat) + self@.digits + zeros(trail as nat),
            digits_below_ten(v@),
    {
        proof {
            use_type_invariant(self);
        }
        let mut v: Vec<u8> = Vec::new();
        push_zeros(&mut v, lead);
        let ghost head = v@;
        let mut i: usize = 0;
        assert(v@ =~= head + self.digits@.take(0));
        while i < self.digits.len()
            invariant
                i <= self.digits.len(),
                v@ == head + self.digits@.take(i as int),
            decreases self.digits.len() - i,
        {
            v.push(self.digits[i]);
            assert(v@ =~= head + self.digits@.take(i + 1));
            i += 1;
        }
        assert(self.digits@.take(self.digits@.len() as int) =~= self.digits@);
        push_zeros(&mut v, trail);
        assert(head =~= zeros(lead as nat));
        v
    }

    /// The number is zero.
    pub fn is_zero(&self) -> (z: bool)
        ensures
            z == (magnitude(self@.digits) == 0),
    {
        let mut i: usize = 0;
        assert(self.digits@.take(0) =~= Seq::<u8>::empty());
        while i < self.digits.len()
            invariant
                i <= self.digits.len(),
                magnitude(self.digits@.take(i as int)) == 0,
            decreases self.digits.len() - i,
        {
            if self.digits[i] != 0 {
                proof {
                    lemma_mag_positive(self.digits@, i as int);
                }
                return false;
            }
            assert(self.digits@.take(i + 1).drop_last() =~= self.digits@.take(i as int));
            i += 1;
        }
        assert(self.digits@.take(self.digits@.len() as int) =~= self.digits@);
        true
    }

    /// The sign of `self - other`.
    pub fn difference(&self, other: &Decimal) -> (r: Sign)
        ensures
            r == sign_of(
                units(self@, common_scale(self@, other@)) - units(other@, common_scale(self@, other@)),
            ),
    {
        proof {
            use_type_invariant(self);
            use_type_invariant(other);
        }
        let ia = self.digits.len() - self.scale;
        let ib = other.digits.len() - other.scale;
        let whole = if ia >= ib { ia } else { ib };
        let f = if self.scale >= other.scale { self.scale } else { other.scale };
        let x = self.padded(whole - ia, f - self.scale);
        let y = other.padded(whole - ib, f - other.scale);
        proof {
            lemma_padded(self.digits@, (whole - ia) as nat, (f - self.scale) as nat);
            lemma_padded(other.digits@, (whole - ib) as nat, (f - other.scale) as nat);
            lemma_pow10_positive((f - self.scale) as nat);
            lemma_pow10_positive((f - other.scale) as nat);
        }
        let m = lexical(&x, &y);
        let ghost ma = magnitude(self.digits@) as int;
        let ghost mb = magnitude(other.digits@) as int;
        let ghost pa = pow10((f - self.scale) as nat) as int;
        let ghost pb = pow10((f - other.scale) as nat) as int;
        if self.negative == other.negative {
            if self.negative {
                match m {
                    Sign::Negative => Sign::Positive,
                    Sign::Zero => Sign::Zero,
                    Sign::Positive => Sign::Negative,
                }
            } else {
                m
            }
        } else {
            let za = self.is_zero();
            let zb = other.is_zero();
            proof {
                assert(ma * pa >= 0 && (ma * pa == 0 <==> ma == 0)) by (nonlinear_arith)
                    requires
                        ma >= 0,
                        pa >= 1,
                ;
                assert(mb * pb >= 0 && (mb * pb == 0 <==> mb == 0)) by (nonlinear_arith)
                    requires
                        mb >= 0,
                        pb >= 1,
                ;
            }
            if za && zb {
                Sign::Zero
            } else if self.negative {
                Sign::Negative
            } else {
                Sign::Positive
            }
        }
    }

    /// `self <= other`, as numbers.
    pub fn at_most(&self, other: &Decimal) -> (b: bool)
        ensures
            b == le(self@, other@),
    {
        match self.difference(other) {
            Sign::Positive => false,
            _ => true,
        }
    }

    /// `self < other`, as numbers.
    pub fn less_than(&self, other: &Decimal) -> (b: bool)
        ensures
            b == lt(self@, other@),
    {
        match self.difference(other) {
            Sign::Negative => true,
            _ => false,
        }
    }
}


/// How many zeros close the row.
pub open spec fn trailing_zeros(s: Seq<u8>) -> nat
    decreases s.len(),
{
    if s.len() == 0 || s.last() != 0 {
        0
    } else {
        1 + trailing_zeros(s.drop_last())
    }
}

/// How many zeros open the row.
pub open spec fn leading_zeros(s: Seq<u8>) -> nat
    decreases s.len(),
{
    if s.len() == 0 || s[0] != 0 {
        0
    } else {
        1 + leading_zeros(s.drop_first())
    }
}

/// The digits before the point.
pub open spec fn whole_part(d: DecimalView) -> Seq<u8> {
    d.digits.take(d.digits.len() - d.scale)
}

/// The digits behind the point.
pub open spec fn fraction_part(d: DecimalView) -> Seq<u8> {
    d.digits.skip(d.digits.len() - d.scale)
}

/// The digits behind the point that the number needs: closing zeros do not count.
pub open spec fn fraction_digits(d: DecimalView) -> nat {
    (d.scale - trailing_zeros(fraction_part(d))) as nat
}

/// The digits that the number needs in all: opening zeros before the point and
/// closing zeros behind it do not count.
pub open spec fn total_digits(d: DecimalView) -> nat {
    (whole_part(d).len() - leading_zeros(whole_part(d))) as nat + fraction_digits(d)
}

proof fn lemma_trailing_bound(s: Seq<u8>)
    ensures
        trailing_zeros(s) <= s.len(),
    decreases s.len(),
{
    if s.len() > 0 && s.last() == 0 {
        lemma_trailing_bound(s.drop_last());
    }
}

proof fn lemma_leading_bound(s: Seq<u8>)
    ensures
        leading_zeros(s) <= s.len(),
    decreases s.len(),
{
    if s.len() > 0 && s[0] == 0 {
        lemma_leading_bound(s.drop_first());
    }
}

impl Decimal {
    /// How many digits behind the point the number needs.
    pub fn fraction_digits(&self) -> (n: usize)
        ensures
            n == fraction_digits(self@),
    {
        proof {
            use_type_invariant(self);
        }
        let len = self.digits.len();
        let ghost frac = fraction_part(self@);
        let mut t: usize = 0;
        assert(frac.take(self.scale as int) =~= frac);
        while t < self.scale && self.digits[len - 1 - t] == 0
            invariant
                len == self.digits@.len(),
                self.scale <= len,
                frac == fraction_part(self@),
                frac.len() == self.scale,
                t <= self.scale,
                trailing_zeros(frac) == t + trailing_zeros(frac.take(self.scale - t)),
            decreases self.scale - t,
        {
            assert(frac.take(self.scale - t).drop_last() =~= frac.take(self.scale - t - 1));
            assert(frac.take(self.scale - t).last() == self.digits@[len - 1 - t]);
            t += 1;
        }
        proof {
            if t < self.scale {
                assert(frac.take(self.scale - t).last() == self.digits@[len - 1 - t]);
            }
        }
        self.scale - t
    }

    /// How many digits the number needs in all.
    pub fn total_digits(&self) -> (n: usize)
        ensures
            n == total_digits(self@),
    {
        proof {
            use_type_invariant(self);
        }
        let count = self.digits.len() - self.scale;
        let ghost whole = whole_part(self@);
        let mut l: usize = 0;
        assert(whole.skip(0) =~= whole);
        while l < count && self.digits[l] == 0
            invariant
                count == self.digits@.len() - self.scale,
                self.scale <= self.digits@.len(),
                whole == whole_part(self@),
                whole.len() == count,
                l <= count,
                leading_zeros(whole) == l + leading_zeros(whole.skip(l as int)),
            decreases count - l,
        {
            assert(whole.skip(l as int).drop_first() =~= whole.skip(l + 1));
            assert(whole.skip(l as int)[0] == self.digits@[l as int]);
            l += 1;
        }
        proof {
            if l < count {
                assert(whole.skip(l as int)[0] == self.digits@[l as int]);
            }
            lemma_trailing_bound(fraction_part(self@));
        }
        let f = self.fraction_digits();
        (count - l) + f
    }
}

} // verus!
