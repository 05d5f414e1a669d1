//! Exact money arithmetic: a value with four fixed fractional digits,
//! stored as a 128-bit signed integer scaled by 10,000. Arithmetic and
//! comparison stay in the scaled-integer domain, so no binary-float
//! rounding error can arise.

use vstd::prelude::*;
use vstd::string::StrSliceExecFns;
use vstd::string::StringExecFns;

verus! {

/// A money value with exactly four fractional decimal digits, held as the
/// underlying value times 10,000.
#[derive(Debug, Clone, Copy, PartialEq, Eq, Structural)]
pub struct FixedPoint {
    scaled: i128,
}

impl FixedPoint {
    /// The mathematical value of this number, in ten-thousandths.
    pub closed spec fn view(self) -> int {
        self.scaled as int
    }

    /// Builds the value `n / 10000` from its scaled representation.
    pub fn from_scaled(n: i128) -> (r: FixedPoint)
        ensures
            r@ == n as int,
    {
        FixedPoint { scaled: n }
    }

    /// The scaled representation: the value times 10,000.
    pub fn scaled(self) -> (r: i128)
        ensures
            r as int == self@,
    {
        self.scaled
    }

    /// The zero value.
    pub fn zero() -> (r: FixedPoint)
        ensures
            r@ == 0,
    {
        FixedPoint { scaled: 0 }
    }

    /// Exact addition in the scaled domain.
    pub fn add(self, rhs: FixedPoint) -> (r: FixedPoint)
        requires
            i128::MIN <= self@ + rhs@ <= i128::MAX,
        ensures
            r@ == self@ + rhs@,
    {
        FixedPoint { scaled: self.scaled + rhs.scaled }
    }

    /// Exact subtraction in the scaled domain.
    pub fn sub(self, rhs: FixedPoint) -> (r: FixedPoint)
        requires
            i128::MIN <= self@ - rhs@ <= i128::MAX,
        ensures
            r@ == self@ - rhs@,
    {
        FixedPoint { scaled: self.scaled - rhs.scaled }
    }

    /// Total order: `self >= rhs`.
    pub fn ge(self, rhs: FixedPoint) -> (r: bool)
        ensures
            r == (self@ >= rhs@),
    {
        self.scaled >= rhs.scaled
    }

    /// Total order: `self > rhs`.
    pub fn gt(self, rhs: FixedPoint) -> (r: bool)
        ensures
            r == (self@ > rhs@),
    {
        self.scaled > rhs.scaled
    }

    /// Reads a decimal amount: one or more integer digits, optionally followed
    /// by a point and one to four fractional digits. Returns the exact value in
    /// ten-thousandths, or nothing when the text does not fit the grammar or
    /// the value does not fit the representation.
    pub fn from_decimal(s: &str) -> (r: Option<FixedPoint>)
        ensures
            match r {
                Some(x) => dec_value(s@) == Some(x@),
                None => dec_value(s@) is None || (dec_value(s@) matches Some(v) && v > i128::MAX),
            },
    {
        let len = s.unicode_len();
        let mut p: usize = 0;
        while p < len && s.get_char(p) != '.'
            invariant
                len == s@.len(),
                0 <= p <= len,
                forall|j: int| 0 <= j < p ==> s@[j] != '.',
            decreases len - p,
        {
            p += 1;
        }
        proof {
            lemma_dot_pos_unique(s@, p as int);
        }
        if p == 0 {
            return None;
        }
        // Integer part: digits at 0..p.
        let mut acc: u128 = 0;
        let mut i: usize = 0;
        let ghost ip = s@.take(p as int);
        while i < p
            invariant
                len == s@.len(),
                0 < p <= len,
                dot_pos(s@) == p,
                0 <= i <= p,
                ip == s@.take(p as int),
                forall|j: int| 0 <= j < i ==> is_digit(#[trigger] s@[j]),
                acc == digits_val(s@.take(i as int)),
            decreases p - i,
        {
            let c = s.get_char(i);
            let u = c as u32;
            if u < 48 || u > 57 {
                proof {
                    assert(!is_digit(s@[i as int]));
                    assert(ip[i as int] == s@[i as int]);
                    assert(!all_digits(ip));
                    assert(dec_value(s@) is None);
                }
                return None;
            }
            proof {
                assert(s@.take(i + 1).drop_last() =~= s@.take(i as int));
                assert(s@.take(i + 1).last() == s@[i as int]);
            }
            let step = match acc.checked_mul(10) {
                Some(t) => t.checked_add((u - 48) as u128),
                None => None,
            };
            match step {
                Some(t) => {
                    acc = t;
                },
                None => {
                    proof {
                        assert(digits_val(s@.take(i + 1)) > u128::MAX);
                        if dec_value(s@) is Some {
                            let v = dec_value(s@)->Some_0;
                            assert(all_digits(ip));
                            assert(ip.take(i + 1) =~= s@.take(i + 1));
                            lemma_digits_val_prefix_bound(ip, i + 1, u128::MAX as int);
                            lemma_digits_val_nonneg(ip);
                            assert(10000 * digits_val(ip) >= digits_val(ip));
                            if (p as int) == s@.len() {
                                assert(ip =~= s@);
                                assert(v == 10000 * digits_val(s@));
                            } else {
                                let fp = s@.skip(p + 1);
                                lemma_digits_val_nonneg(fp);
                                assert(v == 10000 * digits_val(ip) + digits_val(fp) * frac_scale(
                                    fp.len() as int,
                                ));
                                assert(digits_val(fp) * frac_scale(fp.len() as int) >= 0)
                                    by (nonlinear_arith)
                                    requires
                                        digits_val(fp) >= 0,
                                        frac_scale(fp.len() as int) >= 1,
                                ;
                            }
                            assert(v >= 10000 * digits_val(ip));
                            assert(v > i128::MAX);
                        }
                    }
                    return None;
                },
            }
            i += 1;
        }
        proof {
            assert(s@.take(p as int) =~= ip);
            assert(all_digits(ip));
            lemma_digits_val_nonneg(ip);
        }
        // Fractional part: digits at p+1..len, one to four of them.
        let mut facc: u128 = 0;
        let mut fscale: u128 = 1;
        if p < len {
            let flen = len - (p + 1);
            if flen < 1 || flen > 4 {
                proof {
                    assert(s@.skip(p + 1).len() == flen);
                    assert(dec_value(s@) is None);
                }
                return None;
            }
            let ghost fp_chars = s@.skip(p + 1);
            let mut j: usize = 0;
            while j < flen
                invariant
                    len == s@.len(),
                    0 < p < len,
                    dot_pos(s@) == p,
                    flen == len - (p + 1),
                    1 <= flen <= 4,
                    fp_chars == s@.skip(p + 1),
                    0 <= j <= flen,
                    forall|k: int| 0 <= k < j ==> is_digit(#[trigger] fp_chars[k]),
                    facc == digits_val(fp_chars.take(j as int)),
                    facc < (if j == 0 {
                        1u128
                    } else if j == 1 {
                        10u128
                    } else if j == 2 {
                        100u128
                    } else if j == 3 {
                        1000u128
                    } else {
                        10000u128
                    }),
                decreases flen - j,
            {
                let c = s.get_char(p + 1 + j);
                let u = c as u32;
                proof {
                    assert(fp_chars[j as int] == s@[p + 1 + j]);
                }
                if u < 48 || u > 57 {
                    proof {
                        assert(!is_digit(fp_chars[j as int]));
                        assert(dec_value(s@) is None);
                    }
                    return None;
                }
                proof {
                    assert(fp_chars.take(j + 1).drop_last() =~= fp_chars.take(j as int));
                    assert(fp_chars.take(j + 1).last() == fp_chars[j as int]);
                }
                facc = facc * 10 + (u - 48) as u128;
                j += 1;
            }
            proof {
                assert(fp_chars.take(flen as int) =~= fp_chars);
            }
            fscale = if flen == 1 {
                1000
            } else if flen == 2 {
                100
            } else if flen == 3 {
                10
            } else {
                1
            };
            proof {
                assert(fscale as int == frac_scale(fp_chars.len() as int));
            }
        }
        let ghost v = dec_value(s@)->Some_0;
        proof {
            if (p as int) < s@.len() {
                assert(dec_value(s@) == Some(
                    10000 * digits_val(ip) + digits_val(s@.skip(p + 1)) * frac_scale(
                        s@.skip(p + 1).len() as int,
                    ),
                ));
            } else {
                assert(ip =~= s@);
                assert(dec_value(s@) == Some(10000 * digits_val(s@)));
            }
            assert(v == 10000 * acc + facc * fscale);
        }
        proof {
            assert(facc * fscale <= 9999 * 1000) by (nonlinear_arith)
                requires
                    facc < 10000,
                    fscale <= 1000,
            ;
        }
        let fval: u128 = facc * fscale;
        let scaled = match acc.checked_mul(10000) {
            Some(t) => t.checked_add(fval),
            None => None,
        };
        match scaled {
            Some(t) => {
                if t > i128::MAX as u128 {
                    proof {
                        assert(v > i128::MAX);
                    }
                    None
                } else {
                    Some(FixedPoint::from_scaled(t as i128))
                }
            },
            None => {
                proof {
                    assert(v > u128::MAX);
                }
                None
            },
        }
    }

    /// The canonical decimal text of a non-negative value: integer part,
    /// point, exactly four fractional digits.
    pub fn to_decimal(self) -> (r: String)
        requires
            0 <= self@,
        ensures
            r@ == render_decimal(self@),
    {
        let n = self.scaled as u128;
        proof {
            assert(n as int == self@);
        }
        let q = n / 10000;
        let f = n % 10000;
        let mut out = String::new();
        push_digits(&mut out, q);
        proof {
            reveal_strlit(".");
        }
        out.append(".");
        out.append(digit_to_str(f / 1000));
        out.append(digit_to_str((f / 100) % 10));
        out.append(digit_to_str((f / 10) % 10));
        out.append(digit_to_str(f % 10));
        proof {
            assert("."@ =~= seq!['.']);
            assert(out@ =~= render_decimal(self@));
        }
        out
    }
}

/// A decimal digit character.
pub open spec fn is_digit(c: char) -> bool {
    48 <= c as u32 && c as u32 <= 57
}

/// The numeric value of a digit character.
pub open spec fn digit_val(c: char) -> int {
    c as u32 - 48
}

/// The digit character for a value in `0..10`.
pub open spec fn digit_char(d: int) -> char {
    if d == 0 {
        '0'
    } else if d == 1 {
        '1'
    } else if d == 2 {
        '2'
    } else if d == 3 {
        '3'
    } else if d == 4 {
        '4'
    } else if d == 5 {
        '5'
    } else if d == 6 {
        '6'
    } else if d == 7 {
        '7'
    } else if d == 8 {
        '8'
    } else {
        '9'
    }
}

/// Every character of the sequence is a decimal digit.
pub open spec fn all_digits(s: Seq<char>) -> bool {
    forall|i: int| 0 <= i < s.len() ==> is_digit(#[trigger] s[i])
}

/// The value of a digit string, read left to right in base ten.
pub open spec fn digits_val(s: Seq<char>) -> int
    decreases s.len(),
{
    if s.len() == 0 {
        0
    } else {
        10 * digits_val(s.drop_last()) + digit_val(s.last())
    }
}

/// The shortest digit string for a natural number, most significant first.
pub open spec fn digits_of(n: nat) -> Seq<char>
    decreases n,
{
    if n < 10 {
        seq![digit_char(n as int)]
    } else {
        digits_of(n / 10).push(digit_char((n % 10) as int))
    }
}

/// The weight of a fractional digit string of the given length: a string of
/// `k` fractional digits denotes its value times `frac_scale(k)`
/// ten-thousandths.
pub open spec fn frac_scale(k: int) -> int {
    if k == 1 {
        1000
    } else if k == 2 {
        100
    } else if k == 3 {
        10
    } else {
        1
    }
}

/// Index of the first `'.'` in the sequence, or its length if there is none.
pub open spec fn dot_pos(s: Seq<char>) -> int
    decreases s.len(),
{
    if s.len() == 0 {
        0
    } else if s[0] == '.' {
        0
    } else {
        1 + dot_pos(s.drop_first())
    }
}

/// The grammar of a non-negative decimal amount, and its value in
/// ten-thousandths: one or more integer digits, optionally followed by a
/// point and one to four fractional digits. Anything else has no value.
pub open spec fn dec_value(s: Seq<char>) -> Option<int> {
    let p = dot_pos(s);
    if p == s.len() {
        if s.len() >= 1 && all_digits(s) {
            Some(10000 * digits_val(s))
        } else {
            None
        }
    } else {
        let ip = s.take(p);
        let fp = s.skip(p + 1);
        if ip.len() >= 1 && all_digits(ip) && 1 <= fp.len() <= 4 && all_digits(fp) {
            Some(10000 * digits_val(ip) + digits_val(fp) * frac_scale(fp.len() as int))
        } else {
            None
        }
    }
}

/// Exactly four fractional digit characters, zero padded, for `f` in
/// `0..10000`.
pub open spec fn frac4(f: int) -> Seq<char> {
    seq![
        digit_char(f / 1000),
        digit_char((f / 100) % 10),
        digit_char((f / 10) % 10),
        digit_char(f % 10),
    ]
}

/// The canonical text of a non-negative value in ten-thousandths: the
/// integer part without leading zeros, a point, and exactly four fractional
/// digits.
pub open spec fn render_decimal(v: int) -> Seq<char> {
    digits_of((v / 10000) as nat) + seq!['.'] + frac4(v % 10000)
}

/// A digit character's value is the digit it was made from.
proof fn lemma_digit_char_val(d: int)
    requires
        0 <= d < 10,
    ensures
        is_digit(digit_char(d)),
        digit_val(digit_char(d)) == d,
{
}

/// The digit string of a natural number is non-empty, all digits, and reads
/// back as that number.
proof fn lemma_digits_of(n: nat)
    ensures
        digits_of(n).len() >= 1,
        all_digits(digits_of(n)),
        digits_val(digits_of(n)) == n,
    decreases n,
{
    if n < 10 {
        lemma_digit_char_val(n as int);
        let s = digits_of(n);
        assert(s.drop_last() =~= Seq::<char>::empty());
        assert(digits_val(Seq::<char>::empty()) == 0);
        assert(digits_val(s) == 10 * digits_val(s.drop_last()) + digit_val(s.last()));
    } else {
        lemma_digits_of(n / 10);
        lemma_digit_char_val((n % 10) as int);
        let s = digits_of(n);
        assert(s.drop_last() =~= digits_of(n / 10));
        assert(s.last() == digit_char((n % 10) as int));
        assert(digits_val(s) == 10 * digits_val(s.drop_last()) + digit_val(s.last()));
        assert(n == 10 * (n / 10) + n % 10);
        assert forall|i: int| 0 <= i < s.len() implies is_digit(#[trigger] s[i]) by {
            if i < s.len() - 1 {
                assert(s[i] == digits_of(n / 10)[i]);
            }
        }
    }
}

/// A digit string's value is never negative.
proof fn lemma_digits_val_nonneg(s: Seq<char>)
    requires
        all_digits(s),
    ensures
        digits_val(s) >= 0,
    decreases s.len(),
{
    if s.len() > 0 {
        lemma_digits_val_nonneg(s.drop_last());
    }
}

/// Extending a digit string never shrinks its value.
proof fn lemma_digits_val_take_mono(s: Seq<char>, k: int)
    requires
        all_digits(s),
        0 <= k <= s.len(),
    ensures
        digits_val(s.take(k)) <= digits_val(s),
    decreases s.len() - k,
{
    if k < s.len() {
        lemma_digits_val_take_mono(s, k + 1);
        assert(s.take(k + 1).drop_last() =~= s.take(k));
        assert(s.take(k + 1).last() == s[k]);
        lemma_digits_val_nonneg(s.take(k));
    } else {
        assert(s.take(k) =~= s);
    }
}

/// The one-character string for a digit value.
fn digit_to_str(d: u128) -> (r: &'static str)
    requires
        d < 10,
    ensures
        r@ == seq![digit_char(d as int)],
{
    if d == 0 {
        proof {
            reveal_strlit("0");
            assert("0"@ =~= seq![digit_char(0)]);
        }
        "0"
    } else if d == 1 {
        proof {
            reveal_strlit("1");
            assert("1"@ =~= seq![digit_char(1)]);
        }
        "1"
    } else if d == 2 {
        proof {
            reveal_strlit("2");
            assert("2"@ =~= seq![digit_char(2)]);
        }
        "2"
    } else if d == 3 {
        proof {
            reveal_strlit("3");
            assert("3"@ =~= seq![digit_char(3)]);
        }
        "3"
    } else if d == 4 {
        proof {
            reveal_strlit("4");
            assert("4"@ =~= seq![digit_char(4)]);
        }
        "4"
    } else if d == 5 {
        proof {
            reveal_strlit("5");
            assert("5"@ =~= seq![digit_char(5)]);
        }
        "5"
    } else if d == 6 {
        proof {
            reveal_strlit("6");
            assert("6"@ =~= seq![digit_char(6)]);
        }
        "6"
    } else if d == 7 {
        proof {
            reveal_strlit("7");
            assert("7"@ =~= seq![digit_char(7)]);
        }
        "7"
    } else if d == 8 {
        proof {
            reveal_strlit("8");
            assert("8"@ =~= seq![digit_char(8)]);
        }
        "8"
    } else {
        proof {
            reveal_strlit("9");
            assert("9"@ =~= seq![digit_char(9)]);
        }
        "9"
    }
}

/// Appends the shortest digit string of `n`, most significant digit first.
pub(crate) fn push_digits(out: &mut String, n: u128)
    ensures
        final(out)@ == old(out)@ + digits_of(n as nat),
    decreases n,
{
    let ghost orig = out@;
    if n < 10 {
        out.append(digit_to_str(n));
        proof {
            assert(out@ =~= orig + digits_of(n as nat));
        }
    } else {
        push_digits(out, n / 10);
        out.append(digit_to_str(n % 10));
        proof {
            assert(out@ =~= orig + digits_of(n as nat));
        }
    }
}

/// What `dot_pos` promises: it is in range, it points at a dot if there is
/// one, and nothing before it is a dot.
proof fn lemma_dot_pos(s: Seq<char>)
    ensures
        0 <= dot_pos(s) <= s.len(),
        dot_pos(s) < s.len() ==> s[dot_pos(s)] == '.',
        forall|j: int| 0 <= j < dot_pos(s) ==> s[j] != '.',
    decreases s.len(),
{
    if s.len() > 0 && s[0] != '.' {
        lemma_dot_pos(s.drop_first());
        assert forall|j: int| 0 <= j < dot_pos(s) implies s[j] != '.' by {
            if j > 0 {
                assert(s.drop_first()[j - 1] == s[j]);
            }
        }
    }
}

/// A position with no dot before it, and a dot at it if it is not the end,
/// is exactly `dot_pos`.
proof fn lemma_dot_pos_unique(s: Seq<char>, p: int)
    requires
        0 <= p <= s.len(),
        forall|j: int| 0 <= j < p ==> s[j] != '.',
        p < s.len() ==> s[p] == '.',
    ensures
        dot_pos(s) == p,
{
    lemma_dot_pos(s);
    if dot_pos(s) < p {
        assert(s[dot_pos(s)] == '.');
    }
    if dot_pos(s) > p {
        assert(p < s.len());
    }
}

/// The four zero-padded fraction characters read back as their value.
proof fn lemma_frac4_val(f: int)
    requires
        0 <= f < 10000,
    ensures
        frac4(f).len() == 4,
        all_digits(frac4(f)),
        digits_val(frac4(f)) == f,
{
    let s = frac4(f);
    lemma_digit_char_val(f / 1000);
    lemma_digit_char_val((f / 100) % 10);
    lemma_digit_char_val((f / 10) % 10);
    lemma_digit_char_val(f % 10);
    let s3 = s.drop_last();
    let s2 = s3.drop_last();
    let s1 = s2.drop_last();
    let s0 = s1.drop_last();
    assert(s3 =~= seq![digit_char(f / 1000), digit_char((f / 100) % 10), digit_char((f / 10) % 10)]);
    assert(s2 =~= seq![digit_char(f / 1000), digit_char((f / 100) % 10)]);
    assert(s1 =~= seq![digit_char(f / 1000)]);
    assert(s0 =~= Seq::<char>::empty());
    assert(digits_val(s0) == 0);
    assert(digits_val(s1) == 10 * digits_val(s0) + digit_val(s1.last()));
    assert(digits_val(s2) == 10 * digits_val(s1) + digit_val(s2.last()));
    assert(digits_val(s3) == 10 * digits_val(s2) + digit_val(s3.last()));
    assert(digits_val(s) == 10 * digits_val(s3) + digit_val(s.last()));
    assert(digits_val(s) == 1000 * (f / 1000) + 100 * ((f / 100) % 10) + 10 * ((f / 10) % 10) + f
        % 10);
    assert(1000 * (f / 1000) + 100 * ((f / 100) % 10) + 10 * ((f / 10) % 10) + f % 10 == f) by {
        assert(f / 10 == 10 * (f / 100) + (f / 10) % 10);
        assert(f / 100 == 10 * (f / 1000) + (f / 100) % 10);
        assert(f == 10 * (f / 10) + f % 10);
        assert(f / 1000 < 10);
    }
}

/// A digit string whose value fits nowhere below a bound keeps exceeding it
/// as digits are appended, so an overflowing prefix settles the outcome.
proof fn lemma_digits_val_prefix_bound(s: Seq<char>, k: int, bound: int)
    requires
        all_digits(s),
        0 <= k <= s.len(),
        digits_val(s.take(k)) > bound,
        bound >= 0,
    ensures
        digits_val(s) > bound,
{
    lemma_digits_val_take_mono(s, k);
}

/// The round trip through text is exact: rendering any non-negative value
/// and reading the text back yields the value itself, with no drift.
pub proof fn lemma_decimal_round_trip(v: int)
    requires
        0 <= v,
    ensures
        dec_value(render_decimal(v)) == Some(v),
{
    let q = (v / 10000) as nat;
    let f = v % 10000;
    let a = digits_of(q);
    let s = render_decimal(v);
    lemma_digits_of(q);
    lemma_frac4_val(f);
    let p = a.len() as int;
    assert forall|j: int| 0 <= j < p implies s[j] != '.' by {
        assert(s[j] == a[j]);
        assert(is_digit(a[j]));
    }
    assert(s[p] == '.');
    lemma_dot_pos_unique(s, p);
    let ip = s.take(p);
    let fp = s.skip(p + 1);
    assert(ip =~= a);
    assert(fp =~= frac4(f));
    assert(dec_value(s) == Some(10000 * digits_val(ip) + digits_val(fp) * frac_scale(4)));
    assert(10000 * (v / 10000) + v % 10000 == v);
}

} // verus!
