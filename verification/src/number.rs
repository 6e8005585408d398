//! Decimal number text as it stands in STTP content keys (`[-+]?\d*\.?\d+`):
//! its grammar, whether it reads as a confidence in `[0, 1]` once parsed as
//! an `f32`, and its display.
use vstd::prelude::*;
use crate::text::{chars_of, string_of};

verus! {

// ---------------------------------------------------------------------------
// Digits

/// Unicode general category `Nd` (decimal number), the class that `\d`
/// matches in Unicode mode.
#[verifier::opaque]
pub open spec fn is_unicode_digit(c: char) -> bool {
    let u = c as u32;
    ||| (0x30 <= u && u <= 0x39)
    ||| (0x660 <= u && u <= 0x669)
    ||| (0x6f0 <= u && u <= 0x6f9)
    ||| (0x7c0 <= u && u <= 0x7c9)
    ||| (0x966 <= u && u <= 0x96f)
    ||| (0x9e6 <= u && u <= 0x9ef)
    ||| (0xa66 <= u && u <= 0xa6f)
    ||| (0xae6 <= u && u <= 0xaef)
    ||| (0xb66 <= u && u <= 0xb6f)
    ||| (0xbe6 <= u && u <= 0xbef)
    ||| (0xc66 <= u && u <= 0xc6f)
    ||| (0xce6 <= u && u <= 0xcef)
    ||| (0xd66 <= u && u <= 0xd6f)
    ||| (0xde6 <= u && u <= 0xdef)
    ||| (0xe50 <= u && u <= 0xe59)
    ||| (0xed0 <= u && u <= 0xed9)
    ||| (0xf20 <= u && u <= 0xf29)
    ||| (0x1040 <= u && u <= 0x1049)
    ||| (0x1090 <= u && u <= 0x1099)
    ||| (0x17e0 <= u && u <= 0x17e9)
    ||| (0x1810 <= u && u <= 0x1819)
    ||| (0x1946 <= u && u <= 0x194f)
    ||| (0x19d0 <= u && u <= 0x19d9)
    ||| (0x1a80 <= u && u <= 0x1a89)
    ||| (0x1a90 <= u && u <= 0x1a99)
    ||| (0x1b50 <= u && u <= 0x1b59)
    ||| (0x1bb0 <= u && u <= 0x1bb9)
    ||| (0x1c40 <= u && u <= 0x1c49)
    ||| (0x1c50 <= u && u <= 0x1c59)
    ||| (0xa620 <= u && u <= 0xa629)
    ||| (0xa8d0 <= u && u <= 0xa8d9)
    ||| (0xa900 <= u && u <= 0xa909)
    ||| (0xa9d0 <= u && u <= 0xa9d9)
    ||| (0xa9f0 <= u && u <= 0xa9f9)
    ||| (0xaa50 <= u && u <= 0xaa59)
    ||| (0xabf0 <= u && u <= 0xabf9)
    ||| (0xff10 <= u && u <= 0xff19)
    ||| (0x104a0 <= u && u <= 0x104a9)
    ||| (0x10d30 <= u && u <= 0x10d39)
    ||| (0x10d40 <= u && u <= 0x10d49)
    ||| (0x11066 <= u && u <= 0x1106f)
    ||| (0x110f0 <= u && u <= 0x110f9)
    ||| (0x11136 <= u && u <= 0x1113f)
    ||| (0x111d0 <= u && u <= 0x111d9)
    ||| (0x112f0 <= u && u <= 0x112f9)
    ||| (0x11450 <= u && u <= 0x11459)
    ||| (0x114d0 <= u && u <= 0x114d9)
    ||| (0x11650 <= u && u <= 0x11659)
    ||| (0x116c0 <= u && u <= 0x116c9)
    ||| (0x116d0 <= u && u <= 0x116e3)
    ||| (0x11730 <= u && u <= 0x11739)
    ||| (0x118e0 <= u && u <= 0x118e9)
    ||| (0x11950 <= u && u <= 0x11959)
    ||| (0x11bf0 <= u && u <= 0x11bf9)
    ||| (0x11c50 <= u && u <= 0x11c59)
    ||| (0x11d50 <= u && u <= 0x11d59)
    ||| (0x11da0 <= u && u <= 0x11da9)
    ||| (0x11f50 <= u && u <= 0x11f59)
    ||| (0x16130 <= u && u <= 0x16139)
    ||| (0x16a60 <= u && u <= 0x16a69)
    ||| (0x16ac0 <= u && u <= 0x16ac9)
    ||| (0x16b50 <= u && u <= 0x16b59)
    ||| (0x16d70 <= u && u <= 0x16d79)
    ||| (0x1ccf0 <= u && u <= 0x1ccf9)
    ||| (0x1d7ce <= u && u <= 0x1d7ff)
    ||| (0x1e140 <= u && u <= 0x1e149)
    ||| (0x1e2f0 <= u && u <= 0x1e2f9)
    ||| (0x1e4f0 <= u && u <= 0x1e4f9)
    ||| (0x1e5f1 <= u && u <= 0x1e5fa)
    ||| (0x1e950 <= u && u <= 0x1e959)
    ||| (0x1fbf0 <= u && u <= 0x1fbf9)
}

pub fn is_unicode_digit_exec(c: char) -> (b: bool)
    ensures
        b == is_unicode_digit(c),
{
    reveal(is_unicode_digit);
    let u = c as u32;
    (0x30 <= u && u <= 0x39)
        || (0x660 <= u && u <= 0x669)
        || (0x6f0 <= u && u <= 0x6f9)
        || (0x7c0 <= u && u <= 0x7c9)
        || (0x966 <= u && u <= 0x96f)
        || (0x9e6 <= u && u <= 0x9ef)
        || (0xa66 <= u && u <= 0xa6f)
        || (0xae6 <= u && u <= 0xaef)
        || (0xb66 <= u && u <= 0xb6f)
        || (0xbe6 <= u && u <= 0xbef)
        || (0xc66 <= u && u <= 0xc6f)
        || (0xce6 <= u && u <= 0xcef)
        || (0xd66 <= u && u <= 0xd6f)
        || (0xde6 <= u && u <= 0xdef)
        || (0xe50 <= u && u <= 0xe59)
        || (0xed0 <= u && u <= 0xed9)
        || (0xf20 <= u && u <= 0xf29)
        || (0x1040 <= u && u <= 0x1049)
        || (0x1090 <= u && u <= 0x1099)
        || (0x17e0 <= u && u <= 0x17e9)
        || (0x1810 <= u && u <= 0x1819)
        || (0x1946 <= u && u <= 0x194f)
        || (0x19d0 <= u && u <= 0x19d9)
        || (0x1a80 <= u && u <= 0x1a89)
        || (0x1a90 <= u && u <= 0x1a99)
        || (0x1b50 <= u && u <= 0x1b59)
        || (0x1bb0 <= u && u <= 0x1bb9)
        || (0x1c40 <= u && u <= 0x1c49)
        || (0x1c50 <= u && u <= 0x1c59)
        || (0xa620 <= u && u <= 0xa629)
        || (0xa8d0 <= u && u <= 0xa8d9)
        || (0xa900 <= u && u <= 0xa909)
        || (0xa9d0 <= u && u <= 0xa9d9)
        || (0xa9f0 <= u && u <= 0xa9f9)
        || (0xaa50 <= u && u <= 0xaa59)
        || (0xabf0 <= u && u <= 0xabf9)
        || (0xff10 <= u && u <= 0xff19)
        || (0x104a0 <= u && u <= 0x104a9)
        || (0x10d30 <= u && u <= 0x10d39)
        || (0x10d40 <= u && u <= 0x10d49)
        || (0x11066 <= u && u <= 0x1106f)
        || (0x110f0 <= u && u <= 0x110f9)
        || (0x11136 <= u && u <= 0x1113f)
        || (0x111d0 <= u && u <= 0x111d9)
        || (0x112f0 <= u && u <= 0x112f9)
        || (0x11450 <= u && u <= 0x11459)
        || (0x114d0 <= u && u <= 0x114d9)
        || (0x11650 <= u && u <= 0x11659)
        || (0x116c0 <= u && u <= 0x116c9)
        || (0x116d0 <= u && u <= 0x116e3)
        || (0x11730 <= u && u <= 0x11739)
        || (0x118e0 <= u && u <= 0x118e9)
        || (0x11950 <= u && u <= 0x11959)
        || (0x11bf0 <= u && u <= 0x11bf9)
        || (0x11c50 <= u && u <= 0x11c59)
        || (0x11d50 <= u && u <= 0x11d59)
        || (0x11da0 <= u && u <= 0x11da9)
        || (0x11f50 <= u && u <= 0x11f59)
        || (0x16130 <= u && u <= 0x16139)
        || (0x16a60 <= u && u <= 0x16a69)
        || (0x16ac0 <= u && u <= 0x16ac9)
        || (0x16b50 <= u && u <= 0x16b59)
        || (0x16d70 <= u && u <= 0x16d79)
        || (0x1ccf0 <= u && u <= 0x1ccf9)
        || (0x1d7ce <= u && u <= 0x1d7ff)
        || (0x1e140 <= u && u <= 0x1e149)
        || (0x1e2f0 <= u && u <= 0x1e2f9)
        || (0x1e4f0 <= u && u <= 0x1e4f9)
        || (0x1e5f1 <= u && u <= 0x1e5fa)
        || (0x1e950 <= u && u <= 0x1e959)
        || (0x1fbf0 <= u && u <= 0x1fbf9)
}

pub open spec fn is_ascii_digit(c: char) -> bool {
    '0' <= c && c <= '9'
}

/// Value of an ASCII digit.
pub open spec fn digit_val(c: char) -> nat {
    ((c as u32) - ('0' as u32)) as nat
}

/// Value of a string of ASCII digits read in base 10.
pub open spec fn digits_val(s: Seq<char>) -> nat
    decreases s.len(),
{
    if s.len() == 0 {
        0
    } else {
        digits_val(s.drop_last()) * 10 + digit_val(s.last())
    }
}

pub open spec fn all_ascii_digits(s: Seq<char>) -> bool {
    forall|k: int| 0 <= k < s.len() ==> is_ascii_digit(#[trigger] s[k])
}

/// `b` to the power `n`.
pub open spec fn pow_of(b: nat, n: nat) -> nat
    decreases n,
{
    if n == 0 {
        1
    } else {
        b * pow_of(b, (n - 1) as nat)
    }
}

pub proof fn lemma_pow_pos(b: nat, n: nat)
    requires
        b >= 1,
    ensures
        pow_of(b, n) >= 1,
    decreases n,
{
    if n > 0 {
        lemma_pow_pos(b, (n - 1) as nat);
        assert(b * pow_of(b, (n - 1) as nat) >= 1) by (nonlinear_arith)
            requires
                b >= 1,
                pow_of(b, (n - 1) as nat) >= 1,
        ;
    }
}

pub proof fn lemma_pow_add(b: nat, m: nat, n: nat)
    ensures
        pow_of(b, m + n) == pow_of(b, m) * pow_of(b, n),
    decreases n,
{
    if n > 0 {
        let n1 = (n - 1) as nat;
        lemma_pow_add(b, m, n1);
        let p = pow_of(b, m);
        let q = pow_of(b, n1);
        assert(pow_of(b, m + n1) == p * q);
        assert(pow_of(b, m + n) == b * pow_of(b, m + n1));
        assert(pow_of(b, n) == b * q);
        assert(b * (p * q) == p * (b * q)) by (nonlinear_arith);
    } else {
        assert(pow_of(b, n) == 1);
        assert(m + n == m);
    }
}

/// `10^n == 2^n * 5^n`.
pub proof fn lemma_pow10_split(n: nat)
    ensures
        pow_of(10, n) == pow_of(2, n) * pow_of(5, n),
    decreases n,
{
    if n > 0 {
        let n1 = (n - 1) as nat;
        lemma_pow10_split(n1);
        let p = pow_of(2, n1);
        let q = pow_of(5, n1);
        assert(pow_of(10, n) == 10 * pow_of(10, n1));
        assert(pow_of(2, n) == 2 * p);
        assert(pow_of(5, n) == 5 * q);
        assert(10 * (p * q) == (2 * p) * (5 * q)) by (nonlinear_arith);
        assert(pow_of(10, n) == pow_of(2, n) * pow_of(5, n));
    } else {
        assert(pow_of(10, n) == 1 && pow_of(2, n) == 1 && pow_of(5, n) == 1);
    }
}

pub proof fn lemma_digits_concat(a: Seq<char>, b: Seq<char>)
    ensures
        digits_val(a + b) == digits_val(a) * pow_of(10, b.len()) + digits_val(b),
    decreases b.len(),
{
    if b.len() == 0 {
        assert(a + b =~= a);
        assert(digits_val(b) == 0);
        assert(pow_of(10, b.len()) == 1);
    } else {
        let ab = a + b;
        assert(ab.drop_last() =~= a + b.drop_last());
        assert(ab.last() == b.last());
        lemma_digits_concat(a, b.drop_last());
        let va = digits_val(a);
        let p = pow_of(10, (b.len() - 1) as nat);
        let vb = digits_val(b.drop_last());
        let d = digit_val(b.last());
        assert(digits_val(ab) == digits_val(ab.drop_last()) * 10 + d);
        assert(digits_val(ab.drop_last()) == va * p + vb);
        assert(pow_of(10, b.len()) == 10 * p);
        assert(digits_val(b) == vb * 10 + d);
        assert((va * p + vb) * 10 + d == va * (10 * p) + (vb * 10 + d)) by (nonlinear_arith);
    }
}

pub proof fn lemma_digits_first(s: Seq<char>)
    requires
        s.len() > 0,
    ensures
        digits_val(s) == digit_val(s[0]) * pow_of(10, (s.len() - 1) as nat) + digits_val(
            s.drop_first(),
        ),
{
    let h = seq![s[0]];
    assert(s =~= h + s.drop_first());
    lemma_digits_concat(h, s.drop_first());
    assert(h.drop_last() =~= Seq::<char>::empty());
    assert(digits_val(h) == digits_val(h.drop_last()) * 10 + digit_val(h.last()));
    assert(digits_val(h) == digit_val(s[0]));
}

pub proof fn lemma_digits_bound(s: Seq<char>)
    requires
        all_ascii_digits(s),
    ensures
        digits_val(s) < pow_of(10, s.len()),
    decreases s.len(),
{
    if s.len() > 0 {
        let t = s.drop_last();
        assert(all_ascii_digits(t)) by {
            assert forall|k: int| 0 <= k < t.len() implies is_ascii_digit(#[trigger] t[k]) by {
                assert(t[k] == s[k]);
            }
        }
        lemma_digits_bound(t);
        assert(is_ascii_digit(s[s.len() - 1]));
        let v = digits_val(t);
        let p = pow_of(10, t.len());
        let d = digit_val(s.last());
        assert(v * 10 + d < 10 * p) by (nonlinear_arith)
            requires
                v < p,
                d < 10,
        ;
    }
}

/// A string of ASCII digits is worth 0 exactly when every digit is `0`.
pub proof fn lemma_digits_zero(s: Seq<char>)
    requires
        all_ascii_digits(s),
    ensures
        (digits_val(s) == 0) == (forall|k: int| 0 <= k < s.len() ==> #[trigger] s[k] == '0'),
    decreases s.len(),
{
    if s.len() > 0 {
        let t = s.drop_last();
        assert(all_ascii_digits(t)) by {
            assert forall|k: int| 0 <= k < t.len() implies is_ascii_digit(#[trigger] t[k]) by {
                assert(t[k] == s[k]);
            }
        }
        lemma_digits_zero(t);
        assert(is_ascii_digit(s[s.len() - 1]));
        if forall|k: int| 0 <= k < s.len() ==> #[trigger] s[k] == '0' {
            assert forall|k: int| 0 <= k < t.len() implies #[trigger] t[k] == '0' by {
                assert(s[k] == '0');
            }
            assert(s[s.len() - 1] == '0');
        } else {
            let k = choose|k: int| 0 <= k < s.len() && #[trigger] s[k] != '0';
            if k < s.len() - 1 {
                assert(t[k] != '0');
            } else {
                assert(digit_val(s.last()) > 0);
            }
        }
    }
}

// ---------------------------------------------------------------------------
// Comparing decimal fractions

/// `0.f <= 0.d`, compared digit by digit from the left, the shorter one
/// padded with zeros.
pub open spec fn frac_le(f: Seq<char>, d: Seq<char>) -> bool
    decreases f.len(),
{
    if f.len() == 0 {
        true
    } else if d.len() == 0 {
        digits_val(f) == 0
    } else if digit_val(f[0]) < digit_val(d[0]) {
        true
    } else if digit_val(f[0]) > digit_val(d[0]) {
        false
    } else {
        frac_le(f.drop_first(), d.drop_first())
    }
}

proof fn lemma_all_digits_drop_first(s: Seq<char>)
    requires
        all_ascii_digits(s),
        s.len() > 0,
    ensures
        all_ascii_digits(s.drop_first()),
        is_ascii_digit(s[0]),
        digit_val(s[0]) < 10,
{
    assert forall|k: int| 0 <= k < s.drop_first().len() implies is_ascii_digit(
        #[trigger] s.drop_first()[k],
    ) by {
        assert(s.drop_first()[k] == s[k + 1]);
    }
    assert(is_ascii_digit(s[0]));
}

/// The digit-by-digit comparison is the comparison of the values
/// `digits_val(f) / 10^|f|` and `digits_val(d) / 10^|d|`.
pub proof fn lemma_frac_le(f: Seq<char>, d: Seq<char>)
    requires
        all_ascii_digits(f),
        all_ascii_digits(d),
    ensures
        frac_le(f, d) == (digits_val(f) * pow_of(10, d.len()) <= digits_val(d) * pow_of(
            10,
            f.len(),
        )),
    decreases f.len(),
{
    lemma_pow_pos(10, d.len());
    lemma_pow_pos(10, f.len());
    if f.len() == 0 {
        assert(digits_val(f) == 0);
        assert(pow_of(10, f.len()) == 1);
        assert(frac_le(f, d));
        assert(0 * pow_of(10, d.len()) == 0);
    } else if d.len() == 0 {
        assert(digits_val(d) == 0);
        assert(pow_of(10, d.len()) == 1);
        assert(frac_le(f, d) == (digits_val(f) == 0));
        assert(0 * pow_of(10, f.len()) == 0);
    } else {
        lemma_all_digits_drop_first(f);
        lemma_all_digits_drop_first(d);
        lemma_digits_first(f);
        lemma_digits_first(d);
        let n1 = (f.len() - 1) as nat;
        let m1 = (d.len() - 1) as nat;
        let p = pow_of(10, n1);
        let q = pow_of(10, m1);
        let a = digit_val(f[0]);
        let b = digit_val(d[0]);
        let fr = digits_val(f.drop_first());
        let dr = digits_val(d.drop_first());
        lemma_digits_bound(f.drop_first());
        lemma_digits_bound(d.drop_first());
        lemma_pow_pos(10, n1);
        lemma_pow_pos(10, m1);
        assert(pow_of(10, f.len()) == 10 * p);
        assert(pow_of(10, d.len()) == 10 * q);
        assert(digits_val(f) == a * p + fr);
        assert(digits_val(d) == b * q + dr);
        if a < b {
            assert((a * p + fr) * (10 * q) < (b * q + dr) * (10 * p)) by (nonlinear_arith)
                requires
                    a < b,
                    fr < p,
                    dr >= 0,
                    p >= 1,
                    q >= 1,
            ;
            assert(!frac_le(f, d) || true);
            assert(frac_le(f, d));
        } else if a > b {
            assert((a * p + fr) * (10 * q) > (b * q + dr) * (10 * p)) by (nonlinear_arith)
                requires
                    a > b,
                    dr < q,
                    fr >= 0,
                    p >= 1,
                    q >= 1,
            ;
            assert(!frac_le(f, d));
        } else {
            lemma_frac_le(f.drop_first(), d.drop_first());
            assert(frac_le(f.drop_first(), d.drop_first()) == (fr * q <= dr * p));
            assert(((a * p + fr) * (10 * q) <= (b * q + dr) * (10 * p)) == (fr * q <= dr * p))
                by (nonlinear_arith)
                requires
                    a == b,
            ;
        }
    }
}

/// Whether `0.v[lo..hi] <= 0.d`, digit by digit.
pub fn frac_le_exec(v: &Vec<char>, lo: usize, hi: usize, d: &Vec<char>) -> (r: bool)
    requires
        lo <= hi <= v@.len(),
        all_ascii_digits(v@.subrange(lo as int, hi as int)),
        all_ascii_digits(d@),
    ensures
        r == frac_le(v@.subrange(lo as int, hi as int), d@),
{
    let ghost f = v@.subrange(lo as int, hi as int);
    let mut i: usize = 0;
    let n = hi - lo;
    assert(f.subrange(0, f.len() as int) =~= f);
    assert(d@.subrange(0, d@.len() as int) =~= d@);
    while i < n && i < d.len()
        invariant
            lo <= hi <= v@.len(),
            n == hi - lo,
            f == v@.subrange(lo as int, hi as int),
            i <= n,
            i <= d@.len(),
            all_ascii_digits(f),
            all_ascii_digits(d@),
            frac_le(f, d@) == frac_le(f.subrange(i as int, n as int), d@.subrange(i as int, d@.len() as int)),
        decreases n - i,
    {
        let a = v[lo + i];
        let b = d[i];
        let ghost fs = f.subrange(i as int, n as int);
        let ghost ds = d@.subrange(i as int, d@.len() as int);
        assert(fs[0] == a);
        assert(ds[0] == b);
        assert(is_ascii_digit(f[i as int]));
        assert(is_ascii_digit(d@[i as int]));
        if a < b {
            return true;
        }
        if a > b {
            return false;
        }
        assert(fs.drop_first() =~= f.subrange(i + 1, n as int));
        assert(ds.drop_first() =~= d@.subrange(i + 1, d@.len() as int));
        i = i + 1;
    }
    if i == n {
        return true;
    }
    let ghost rest = f.subrange(i as int, n as int);
    assert(d@.subrange(i as int, d@.len() as int).len() == 0);
    assert(all_ascii_digits(rest)) by {
        assert forall|k: int| 0 <= k < rest.len() implies is_ascii_digit(#[trigger] rest[k]) by {
            assert(rest[k] == f[i + k]);
        }
    }
    assert(rest =~= v@.subrange(lo + i, hi as int));
    let mut j = lo + i;
    while j < hi
        invariant
            lo + i <= j <= hi <= v@.len(),
            rest == v@.subrange(lo + i, hi as int),
            all_ascii_digits(rest),
            frac_le(f, d@) == frac_le(rest, d@.subrange(i as int, d@.len() as int)),
            rest.len() > 0,
            i == d@.len(),
            f == v@.subrange(lo as int, hi as int),
            forall|k: int| 0 <= k < j - (lo + i) ==> #[trigger] rest[k] == '0',
        decreases hi - j,
    {
        if v[j] != '0' {
            proof {
                let ds = d@.subrange(i as int, d@.len() as int);
                assert(ds.len() == 0);
                assert(frac_le(rest, ds) == (digits_val(rest) == 0));
                assert(rest[j - (lo + i)] != '0');
                lemma_digits_zero(rest);
                assert(digits_val(rest) != 0);
            }
            return false;
        }
        j = j + 1;
    }
    proof {
        let ds = d@.subrange(i as int, d@.len() as int);
        assert(ds.len() == 0);
        assert(frac_le(rest, ds) == (digits_val(rest) == 0));
        lemma_digits_zero(rest);
    }
    true
}

// ---------------------------------------------------------------------------
// Number text

/// Length of the optional leading sign.
pub open spec fn sign_len(t: Seq<char>) -> int {
    if t.len() > 0 && (t[0] == '+' || t[0] == '-') {
        1
    } else {
        0
    }
}

pub open spec fn is_negative(t: Seq<char>) -> bool {
    t.len() > 0 && t[0] == '-'
}

/// The text after the sign.
pub open spec fn number_body(t: Seq<char>) -> Seq<char> {
    t.subrange(sign_len(t), t.len() as int)
}

/// `t` matches `[-+]?\d*\.?\d+` as a whole: after an optional sign, digits
/// with at most one `.`, ending in a digit.
pub open spec fn is_number_text(t: Seq<char>) -> bool {
    let b = number_body(t);
    &&& b.len() > 0
    &&& is_unicode_digit(b.last())
    &&& forall|k: int| 0 <= k < b.len() ==> is_unicode_digit(#[trigger] b[k]) || b[k] == '.'
    &&& forall|j: int, k: int|
        0 <= j < b.len() && 0 <= k < b.len() && #[trigger] b[j] == '.' && #[trigger] b[k] == '.'
            ==> j == k
}

/// Whether `v[lo..hi]` is number text (see `is_number_text`).
pub fn is_number_text_exec(v: &Vec<char>, lo: usize, hi: usize) -> (r: bool)
    requires
        lo <= hi <= v@.len(),
    ensures
        r == is_number_text(v@.subrange(lo as int, hi as int)),
{
    let ghost t = v@.subrange(lo as int, hi as int);
    if lo == hi {
        assert(number_body(t).len() == 0);
        return false;
    }
    assert(t[0] == v@[lo as int]);
    let s: usize = if v[lo] == '+' || v[lo] == '-' {
        1
    } else {
        0
    };
    let bs = lo + s;
    let ghost b = number_body(t);
    assert(b =~= v@.subrange(bs as int, hi as int));
    if bs == hi {
        return false;
    }
    assert(b.last() == v@[hi - 1]);
    if !is_unicode_digit_exec(v[hi - 1]) {
        return false;
    }
    let mut seen_dot = false;
    let mut dot_at: usize = bs;
    let mut i = bs;
    while i < hi
        invariant
            bs <= i <= hi <= v@.len(),
            b == v@.subrange(bs as int, hi as int),
            t == v@.subrange(lo as int, hi as int),
            b == number_body(t),
            b.len() > 0,
            is_unicode_digit(b.last()),
            forall|k: int| 0 <= k < i - bs ==> is_unicode_digit(#[trigger] b[k]) || b[k] == '.',
            forall|j: int, k: int|
                0 <= j < i - bs && 0 <= k < i - bs && #[trigger] b[j] == '.' && #[trigger] b[k] == '.'
                    ==> j == k,
            seen_dot ==> bs <= dot_at < i && b[dot_at - bs] == '.',
            !seen_dot ==> forall|k: int| 0 <= k < i - bs ==> #[trigger] b[k] != '.',
        decreases hi - i,
    {
        let c = v[i];
        assert(b[i - bs] == c);
        if c == '.' {
            if seen_dot {
                assert(b[dot_at - bs] == '.' && b[i - bs] == '.');
                assert(dot_at - bs != i - bs);
                assert(!(forall|j: int, k: int|
                    0 <= j < b.len() && 0 <= k < b.len() && #[trigger] b[j] == '.' && #[trigger] b[k]
                        == '.' ==> j == k));
                return false;
            }
            seen_dot = true;
            dot_at = i;
        } else if !is_unicode_digit_exec(c) {
            assert(!(is_unicode_digit(b[i - bs]) || b[i - bs] == '.'));
            return false;
        }
        i = i + 1;
    }
    true
}

/// Number of characters before the first `.` (all of them if there is none).
pub open spec fn int_len(b: Seq<char>) -> nat
    decreases b.len(),
{
    if b.len() == 0 || b[0] == '.' {
        0
    } else {
        1 + int_len(b.drop_first())
    }
}

/// The digits before the `.`.
pub open spec fn int_part(t: Seq<char>) -> Seq<char> {
    number_body(t).take(int_len(number_body(t)) as int)
}

/// The digits after the `.`, empty where there is none.
pub open spec fn frac_part(t: Seq<char>) -> Seq<char> {
    let b = number_body(t);
    if int_len(b) < b.len() {
        b.subrange(int_len(b) as int + 1, b.len() as int)
    } else {
        Seq::empty()
    }
}

/// Every digit of the number is an ASCII digit, so `str::parse::<f32>`
/// accepts the text (it rejects other Unicode digits).
pub open spec fn ascii_number(t: Seq<char>) -> bool {
    all_ascii_digits(int_part(t)) && all_ascii_digits(frac_part(t))
}

/// The magnitude of the number is `magnitude_num(t) / 10^|frac_part(t)|`.
pub open spec fn magnitude_num(t: Seq<char>) -> nat {
    digits_val(int_part(t)) * pow_of(10, frac_part(t).len()) + digits_val(frac_part(t))
}

/// `str::parse::<f32>` reads `t` and the result lies in `[0, 1]`.
///
/// The parse rounds to the nearest `f32`, ties to even.  A positive value
/// up to `1 + 2^-24` rounds to at most `1.0`, anything above to more.  A
/// negative value of magnitude at most `2^-150` rounds to `-0.0`, which
/// lies in `[0, 1]`; any other negative value rounds below it.
pub open spec fn confidence_accepted(t: Seq<char>) -> bool {
    let n = frac_part(t).len();
    &&& ascii_number(t)
    &&& if is_negative(t) {
        magnitude_num(t) * pow_of(2, 150) <= pow_of(10, n)
    } else {
        magnitude_num(t) * pow_of(2, 24) <= (pow_of(2, 24) + 1) * pow_of(10, n)
    }
}

pub proof fn lemma_int_len(b: Seq<char>)
    ensures
        int_len(b) <= b.len(),
        forall|k: int| 0 <= k < int_len(b) ==> #[trigger] b[k] != '.',
        int_len(b) < b.len() ==> b[int_len(b) as int] == '.',
    decreases b.len(),
{
    if b.len() > 0 && b[0] != '.' {
        lemma_int_len(b.drop_first());
        assert forall|k: int| 0 <= k < int_len(b) implies #[trigger] b[k] != '.' by {
            if k > 0 {
                assert(b[k] == b.drop_first()[k - 1]);
            }
        }
    }
}

pub proof fn lemma_int_len_char(b: Seq<char>, n: nat)
    requires
        n <= b.len(),
        forall|k: int| 0 <= k < n ==> #[trigger] b[k] != '.',
        n < b.len() ==> b[n as int] == '.',
    ensures
        int_len(b) == n,
    decreases b.len(),
{
    if n > 0 {
        assert(b[0] != '.');
        assert forall|k: int| 0 <= k < n - 1 implies #[trigger] b.drop_first()[k] != '.' by {
            assert(b[k + 1] != '.');
        }
        lemma_int_len_char(b.drop_first(), (n - 1) as nat);
    }
}

/// The digits of `2^-24` after the decimal point: `5^24` written in 24
/// digits.
fn half_ulp_of_one_digits() -> (r: Vec<char>)
    ensures
        r@.len() == 24,
        all_ascii_digits(r@),
        digits_val(r@) * pow_of(2, 24) == pow_of(10, 24),
{
    let r = chars_of("000000059604644775390625");
    proof {
        reveal_strlit("000000059604644775390625");
        reveal_with_fuel(digits_val, 25);
        reveal_with_fuel(pow_of, 25);
        assert(digits_val(r@) == 59604644775390625);
        assert(pow_of(2, 24) == 16777216);
        assert(pow_of(10, 24) == 1000000000000000000000000);
    }
    r
}

/// The digits of `2^-150` after the decimal point: `5^150` written in 150
/// digits.
#[verifier::rlimit(60)]
fn min_subnormal_half_digits() -> (r: Vec<char>)
    ensures
        r@.len() == 150,
        all_ascii_digits(r@),
        digits_val(r@) * pow_of(2, 150) == pow_of(10, 150),
{
    let mut r = chars_of("0000000000000000000000000");
    let mut c2 = chars_of("0000000000000000000070064");
    let mut c3 = chars_of("9232162408535461864791644");
    let mut c4 = chars_of("9580656401309709382578858");
    let mut c5 = chars_of("7853414194489554134293030");
    let mut c6 = chars_of("0743319094181060791015625");
    let ghost c1 = r@;
    let ghost (v2, v3, v4, v5, v6) = (c2@, c3@, c4@, c5@, c6@);
    r.append(&mut c2);
    r.append(&mut c3);
    r.append(&mut c4);
    r.append(&mut c5);
    r.append(&mut c6);
    proof {
        reveal_strlit("0000000000000000000000000");
        reveal_strlit("0000000000000000000070064");
        reveal_strlit("9232162408535461864791644");
        reveal_strlit("9580656401309709382578858");
        reveal_strlit("7853414194489554134293030");
        reveal_strlit("0743319094181060791015625");
        let p = pow_of(10, 25);
        assert(p == 10000000000000000000000000) by {
            reveal_with_fuel(pow_of, 26);
        }
        assert(pow_of(2, 25) == 33554432) by {
            reveal_with_fuel(pow_of, 26);
        }
        assert(digits_val(c1) == 0) by {
            reveal_with_fuel(digits_val, 26);
        }
        assert(digits_val(v2) == 70064) by {
            reveal_with_fuel(digits_val, 26);
        }
        assert(digits_val(v3) == 9232162408535461864791644) by {
            reveal_with_fuel(digits_val, 26);
        }
        assert(digits_val(v4) == 9580656401309709382578858) by {
            reveal_with_fuel(digits_val, 26);
        }
        assert(digits_val(v5) == 7853414194489554134293030) by {
            reveal_with_fuel(digits_val, 26);
        }
        assert(digits_val(v6) == 743319094181060791015625) by {
            reveal_with_fuel(digits_val, 26);
        }
        let s2 = c1 + v2;
        let s3 = s2 + v3;
        let s4 = s3 + v4;
        let s5 = s4 + v5;
        let s6 = s5 + v6;
        assert(r@ == s6);
        lemma_digits_concat(c1, v2);
        lemma_digits_concat(s2, v3);
        lemma_digits_concat(s3, v4);
        lemma_digits_concat(s4, v5);
        lemma_digits_concat(s5, v6);
        assert(digits_val(s6) == 700649232162408535461864791644958065640130970938257885878534141944895541342930300743319094181060791015625);
        lemma_pow_add(10, 25, 25);
        lemma_pow_add(10, 50, 25);
        lemma_pow_add(10, 75, 25);
        lemma_pow_add(10, 100, 25);
        lemma_pow_add(10, 125, 25);
        lemma_pow_add(2, 25, 25);
        lemma_pow_add(2, 50, 25);
        lemma_pow_add(2, 75, 25);
        lemma_pow_add(2, 100, 25);
        lemma_pow_add(2, 125, 25);
        assert(pow_of(10, 150) == p * p * p * p * p * p);
        assert(pow_of(2, 150) == 33554432 * 33554432 * 33554432 * 33554432 * 33554432 * 33554432);
        assert forall|k: int| 0 <= k < r@.len() implies is_ascii_digit(#[trigger] r@[k]) by {
            assert(is_ascii_digit(r@[k]));
        }
    }
    r
}

/// Whether every character of `v[lo..hi]` is an ASCII digit.
fn all_ascii_range(v: &Vec<char>, lo: usize, hi: usize) -> (r: bool)
    requires
        lo <= hi <= v@.len(),
    ensures
        r == all_ascii_digits(v@.subrange(lo as int, hi as int)),
{
    let ghost s = v@.subrange(lo as int, hi as int);
    let mut i = lo;
    while i < hi
        invariant
            lo <= i <= hi <= v@.len(),
            s == v@.subrange(lo as int, hi as int),
            forall|k: int| 0 <= k < i - lo ==> is_ascii_digit(#[trigger] s[k]),
        decreases hi - i,
    {
        let c = v[i];
        if !('0' <= c && c <= '9') {
            assert(!is_ascii_digit(s[i - lo]));
            return false;
        }
        i = i + 1;
    }
    true
}

/// `min(value of v[lo..hi], 2)` for ASCII digits.
fn capped_value(v: &Vec<char>, lo: usize, hi: usize) -> (r: u8)
    requires
        lo <= hi <= v@.len(),
        all_ascii_digits(v@.subrange(lo as int, hi as int)),
    ensures
        r as nat == if digits_val(v@.subrange(lo as int, hi as int)) >= 2 {
            2
        } else {
            digits_val(v@.subrange(lo as int, hi as int))
        },
{
    let mut r: u8 = 0;
    let mut i = lo;
    assert(v@.subrange(lo as int, lo as int).len() == 0);
    while i < hi
        invariant
            lo <= i <= hi <= v@.len(),
            all_ascii_digits(v@.subrange(lo as int, hi as int)),
            r as nat == if digits_val(v@.subrange(lo as int, i as int)) >= 2 {
                2
            } else {
                digits_val(v@.subrange(lo as int, i as int))
            },
        decreases hi - i,
    {
        let c = v[i];
        assert(v@.subrange(lo as int, hi as int)[i - lo] == c);
        assert(is_ascii_digit(c));
        let ghost prev = v@.subrange(lo as int, i as int);
        let ghost next = v@.subrange(lo as int, i + 1);
        assert(next.drop_last() =~= prev);
        assert(digits_val(next) == digits_val(prev) * 10 + digit_val(c));
        let d = ((c as u32) - ('0' as u32)) as u8;
        assert(d as nat == digit_val(c));
        if r >= 2 || r * 10 + d >= 2 {
            r = 2;
        } else {
            r = r * 10 + d;
        }
        i = i + 1;
    }
    r
}

proof fn lemma_negative_decision(i: nat, v: nat, p: nat, t: nat)
    requires
        p >= 1,
        t >= 2,
    ensures
        i >= 1 ==> (i * p + v) * t > p,
        i == 0 ==> (i * p + v) * t == v * t,
{
    if i >= 1 {
        assert((i * p + v) * t > p) by (nonlinear_arith)
            requires
                i >= 1,
                p >= 1,
                t >= 2,
        ;
    } else {
        assert((i * p + v) * t == v * t) by (nonlinear_arith)
            requires
                i == 0,
        ;
    }
}

proof fn lemma_positive_decision(i: nat, v: nat, p: nat, q: nat)
    requires
        p >= 1,
        q >= 2,
        v < p,
    ensures
        i >= 2 ==> (i * p + v) * q > (q + 1) * p,
        i == 0 ==> (i * p + v) * q <= (q + 1) * p,
        i == 1 ==> (((i * p + v) * q <= (q + 1) * p) == (v * q <= p)),
{
    if i >= 2 {
        assert((i * p + v) * q > (q + 1) * p) by (nonlinear_arith)
            requires
                i >= 2,
                p >= 1,
                q >= 2,
        ;
    } else if i == 0 {
        assert((i * p + v) * q <= (q + 1) * p) by (nonlinear_arith)
            requires
                i == 0,
                v < p,
                q >= 2,
        ;
    } else {
        assert(((i * p + v) * q <= (q + 1) * p) == (v * q <= p)) by (nonlinear_arith)
            requires
                i == 1,
        ;
    }
}

/// With `d * t == 10^k == t * f`, comparing `v * 10^k` with `d * p` is
/// comparing `v * t` with `p`.
proof fn lemma_frac_cancel(v: nat, p: nat, t: nat, f: nat, d: nat, big: nat)
    requires
        t >= 1,
        f >= 1,
        d * t == big,
        big == t * f,
    ensures
        (v * big <= d * p) == (v * t <= p),
{
    assert(d == f) by (nonlinear_arith)
        requires
            d * t == t * f,
            t >= 1,
    ;
    assert((v * (t * f) <= f * p) == (v * t <= p)) by (nonlinear_arith)
        requires
            f >= 1,
    ;
}

/// Where the parts of the number text `v[lo..hi]` lie: whether it is
/// negative, and the bounds of its integer digits and the start of its
/// fraction digits (which run to `hi`).
fn number_parts(v: &Vec<char>, lo: usize, hi: usize) -> (r: (bool, usize, usize, usize))
    requires
        lo <= hi <= v@.len(),
        is_number_text(v@.subrange(lo as int, hi as int)),
    ensures
        r.0 == is_negative(v@.subrange(lo as int, hi as int)),
        lo <= r.1 <= r.2 <= r.3 <= hi,
        int_part(v@.subrange(lo as int, hi as int)) == v@.subrange(r.1 as int, r.2 as int),
        frac_part(v@.subrange(lo as int, hi as int)) == v@.subrange(r.3 as int, hi as int),
{
    let ghost t = v@.subrange(lo as int, hi as int);
    let ghost b = number_body(t);
    assert(t[0] == v@[lo as int]);
    let neg = v[lo] == '-';
    let s: usize = if v[lo] == '+' || v[lo] == '-' {
        1
    } else {
        0
    };
    let bs = lo + s;
    assert(b =~= v@.subrange(bs as int, hi as int));
    let mut dot = bs;
    while dot < hi && v[dot] != '.'
        invariant
            bs <= dot <= hi <= v@.len(),
            forall|k: int| bs <= k < dot ==> #[trigger] v@[k] != '.',
        decreases hi - dot,
    {
        dot = dot + 1;
    }
    proof {
        assert forall|k: int| 0 <= k < dot - bs implies #[trigger] b[k] != '.' by {
            assert(b[k] == v@[bs + k]);
        }
        if dot < hi {
            assert(b[dot - bs] == v@[dot as int]);
        }
        lemma_int_len_char(b, (dot - bs) as nat);
    }
    let fa = if dot < hi {
        dot + 1
    } else {
        hi
    };
    assert(int_part(t) =~= v@.subrange(bs as int, dot as int));
    assert(frac_part(t) =~= v@.subrange(fa as int, hi as int));
    (neg, bs, dot, fa)
}

/// Whether the number text `v[lo..hi]` reads, as an `f32`, as a confidence
/// in `[0, 1]`.
pub fn confidence_in_range(v: &Vec<char>, lo: usize, hi: usize) -> (r: bool)
    requires
        lo <= hi <= v@.len(),
        is_number_text(v@.subrange(lo as int, hi as int)),
    ensures
        r == confidence_accepted(v@.subrange(lo as int, hi as int)),
{
    let ghost t = v@.subrange(lo as int, hi as int);
    let (neg, bs, dot, fa) = number_parts(v, lo, hi);
    if !all_ascii_range(v, bs, dot) || !all_ascii_range(v, fa, hi) {
        return false;
    }
    let ghost ip = int_part(t);
    let ghost fp = frac_part(t);
    let sat = capped_value(v, bs, dot);
    let ghost p = pow_of(10, fp.len());
    let ghost iv = digits_val(ip);
    let ghost fv = digits_val(fp);
    proof {
        lemma_pow_pos(10, fp.len());
        lemma_digits_bound(fp);
        assert(magnitude_num(t) == iv * p + fv);
    }
    if neg {
        if sat != 0 {
            proof {
                lemma_pow_pos(2, 149);
                assert(pow_of(2, 150) == 2 * pow_of(2, 149));
                lemma_pow10_split(150);
                lemma_pow_pos(5, 150);
                lemma_negative_decision(iv, fv, p, pow_of(2, 150));
            }
            return false;
        }
        let d = min_subnormal_half_digits();
        let r = frac_le_exec(v, fa, hi, &d);
        proof {
            lemma_frac_le(fp, d@);
            lemma_pow_pos(2, 149);
            assert(pow_of(2, 150) == 2 * pow_of(2, 149));
            lemma_pow10_split(150);
            lemma_pow_pos(5, 150);
            lemma_negative_decision(iv, fv, p, pow_of(2, 150));
            lemma_frac_cancel(fv, p, pow_of(2, 150), pow_of(5, 150), digits_val(d@), pow_of(10, 150));
        }
        r
    } else {
        proof {
            lemma_pow_pos(2, 23);
            assert(pow_of(2, 24) == 2 * pow_of(2, 23));
            lemma_pow10_split(24);
            lemma_pow_pos(5, 24);
        }
        if sat >= 2 {
            proof {
                lemma_positive_decision(iv, fv, p, pow_of(2, 24));
            }
            return false;
        }
        if sat == 0 {
            proof {
                lemma_positive_decision(iv, fv, p, pow_of(2, 24));
            }
            return true;
        }
        let d = half_ulp_of_one_digits();
        let r = frac_le_exec(v, fa, hi, &d);
        proof {
            lemma_frac_le(fp, d@);
            lemma_positive_decision(iv, fv, p, pow_of(2, 24));
            lemma_frac_cancel(fv, p, pow_of(2, 24), pow_of(5, 24), digits_val(d@), pow_of(10, 24));
        }
        r
    }
}

// ---------------------------------------------------------------------------
// Display

/// `s` without its leading `0`s.
pub open spec fn strip_lead_zeros(s: Seq<char>) -> Seq<char>
    decreases s.len(),
{
    if s.len() > 0 && s[0] == '0' {
        strip_lead_zeros(s.drop_first())
    } else {
        s
    }
}

/// `s` without its trailing `0`s.
pub open spec fn strip_trail_zeros(s: Seq<char>) -> Seq<char>
    decreases s.len(),
{
    if s.len() > 0 && s.last() == '0' {
        strip_trail_zeros(s.drop_last())
    } else {
        s
    }
}

/// How a confidence is shown in a diagnostic: the number in plain decimal,
/// without superfluous zeros or `+`, and `-1` where the text does not parse.
pub open spec fn number_display(t: Seq<char>) -> Seq<char> {
    if !ascii_number(t) {
        "-1"@
    } else {
        let ip = strip_lead_zeros(int_part(t));
        let fp = strip_trail_zeros(frac_part(t));
        let whole = if ip.len() == 0 {
            "0"@
        } else {
            ip
        };
        let mag = if fp.len() == 0 {
            whole
        } else {
            whole + "."@ + fp
        };
        if is_negative(t) {
            "-"@ + mag
        } else {
            mag
        }
    }
}

/// Index of the first character of `v[lo..hi]` that is not `0`.
fn skip_lead_zeros(v: &Vec<char>, lo: usize, hi: usize) -> (a: usize)
    requires
        lo <= hi <= v@.len(),
    ensures
        lo <= a <= hi,
        v@.subrange(a as int, hi as int) == strip_lead_zeros(v@.subrange(lo as int, hi as int)),
{
    let mut a = lo;
    while a < hi && v[a] == '0'
        invariant
            lo <= a <= hi <= v@.len(),
            strip_lead_zeros(v@.subrange(a as int, hi as int)) == strip_lead_zeros(
                v@.subrange(lo as int, hi as int),
            ),
        decreases hi - a,
    {
        assert(v@.subrange(a as int, hi as int).drop_first() =~= v@.subrange(a + 1, hi as int));
        a = a + 1;
    }
    a
}

/// End of `v[lo..hi]` once its trailing `0`s are dropped.
fn skip_trail_zeros(v: &Vec<char>, lo: usize, hi: usize) -> (b: usize)
    requires
        lo <= hi <= v@.len(),
    ensures
        lo <= b <= hi,
        v@.subrange(lo as int, b as int) == strip_trail_zeros(v@.subrange(lo as int, hi as int)),
{
    let mut b = hi;
    while b > lo && v[b - 1] == '0'
        invariant
            lo <= b <= hi <= v@.len(),
            strip_trail_zeros(v@.subrange(lo as int, b as int)) == strip_trail_zeros(
                v@.subrange(lo as int, hi as int),
            ),
        decreases b,
    {
        assert(v@.subrange(lo as int, b as int).drop_last() =~= v@.subrange(lo as int, b - 1));
        b = b - 1;
    }
    b
}

/// The display of the number text `v[lo..hi]` (see `number_display`).
pub fn display_number(v: &Vec<char>, lo: usize, hi: usize) -> (r: String)
    requires
        lo <= hi <= v@.len(),
        is_number_text(v@.subrange(lo as int, hi as int)),
    ensures
        r@ == number_display(v@.subrange(lo as int, hi as int)),
{
    let ghost t = v@.subrange(lo as int, hi as int);
    let (neg, bs, dot, fa) = number_parts(v, lo, hi);
    if !all_ascii_range(v, bs, dot) || !all_ascii_range(v, fa, hi) {
        return string_of("-1");
    }
    let a = skip_lead_zeros(v, bs, dot);
    let fb = skip_trail_zeros(v, fa, hi);
    let mut r = String::new();
    if neg {
        r.push('-');
    }
    let ghost sign_part = r@;
    if a == dot {
        r.push('0');
    } else {
        let mut k = a;
        while k < dot
            invariant
                a <= k <= dot <= v@.len(),
                r@ == sign_part + v@.subrange(a as int, k as int),
            decreases dot - k,
        {
            r.push(v[k]);
            k = k + 1;
            assert(r@ =~= sign_part + v@.subrange(a as int, k as int));
        }
    }
    let ghost whole_part = r@;
    if fa < fb {
        r.push('.');
        let mut k = fa;
        while k < fb
            invariant
                fa <= k <= fb <= v@.len(),
                r@ == whole_part + seq!['.'] + v@.subrange(fa as int, k as int),
            decreases fb - k,
        {
            r.push(v[k]);
            k = k + 1;
            assert(r@ =~= whole_part + seq!['.'] + v@.subrange(fa as int, k as int));
        }
    }
    proof {
        reveal_strlit("0");
        reveal_strlit(".");
        reveal_strlit("-");
        let ip = strip_lead_zeros(int_part(t));
        let fp = strip_trail_zeros(frac_part(t));
        let whole = if ip.len() == 0 {
            "0"@
        } else {
            ip
        };
        assert(whole_part =~= (if neg { "-"@ } else { Seq::<char>::empty() }) + whole);
        if fp.len() == 0 {
            assert(r@ =~= whole_part);
        } else {
            assert(r@ =~= whole_part + "."@ + fp);
        }
        if neg {
            assert(is_negative(t));
        } else {
            assert(!is_negative(t));
        }
    }
    r
}

} // verus!
