//! Exact 256-bit unsigned amounts, held as four 64-bit limbs.
//!
//! Token and invoice amounts are integers in the token's smallest unit.
//! Every operation is specified against the mathematical value `as_nat`.

use vstd::prelude::*;

use crate::encoding::{ascii_seq, ascii_to_string};

verus! {

/// The ASCII character of a decimal digit.
pub open spec fn digit_char(d: nat) -> char {
    ((48 + d % 10) as u8) as char
}

/// The decimal representation of `n`, most significant digit first, with
/// no leading zeros (`0` is written `"0"`).
pub open spec fn dec_rep(n: nat) -> Seq<char>
    decreases n,
{
    if n < 10 {
        seq![digit_char(n)]
    } else {
        dec_rep(n / 10).push(digit_char(n % 10))
    }
}

pub open spec fn is_dec_digit(c: char) -> bool {
    '0' <= c && c <= '9'
}

pub open spec fn dec_digit_val(c: char) -> nat {
    if is_dec_digit(c) {
        (c as nat - 48) as nat
    } else {
        0
    }
}

/// The value of a string of decimal digits, most significant first.
pub open spec fn dec_val(s: Seq<char>) -> nat
    decreases s.len(),
{
    if s.len() == 0 {
        0
    } else {
        dec_val(s.drop_last()) * 10 + dec_digit_val(s.last())
    }
}

pub open spec fn is_hex_digit(c: char) -> bool {
    ('0' <= c && c <= '9') || ('a' <= c && c <= 'f') || ('A' <= c && c <= 'F')
}

pub open spec fn hex_digit_val(c: char) -> nat {
    if '0' <= c && c <= '9' {
        (c as nat - 48) as nat
    } else if 'a' <= c && c <= 'f' {
        (c as nat - 87) as nat
    } else if 'A' <= c && c <= 'F' {
        (c as nat - 55) as nat
    } else {
        0
    }
}

/// Every character is a hexadecimal digit.
pub open spec fn all_hex_digits(s: Seq<char>) -> bool {
    forall|i: int| 0 <= i < s.len() ==> is_hex_digit(#[trigger] s[i])
}

/// Every character is a decimal digit.
pub open spec fn all_dec_digits(s: Seq<char>) -> bool {
    forall|i: int| 0 <= i < s.len() ==> is_dec_digit(#[trigger] s[i])
}

/// The value of a string of hexadecimal digits, most significant first.
pub open spec fn hex_val(s: Seq<char>) -> nat
    decreases s.len(),
{
    if s.len() == 0 {
        0
    } else {
        hex_val(s.drop_last()) * 16 + hex_digit_val(s.last())
    }
}

/// A run of `k` ASCII zeros.
pub open spec fn zero_chars(k: nat) -> Seq<char> {
    Seq::new(k, |i: int| '0')
}

/// `s` with its trailing ASCII zeros removed.
pub open spec fn trim_trailing_zeros(s: Seq<char>) -> Seq<char>
    decreases s.len(),
{
    if s.len() > 0 && s.last() == '0' {
        trim_trailing_zeros(s.drop_last())
    } else {
        s
    }
}

/// `n` scaled down by `d` decimal places and printed with the fractional
/// part trimmed of trailing zeros: the decimal digits of `n` are split `d`
/// places from the right (zero-padded on the left as needed), and the dot
/// is omitted when the fraction is zero.
pub open spec fn format_units_spec(n: nat, d: nat) -> Seq<char> {
    let ds = dec_rep(n);
    let ip = if ds.len() > d {
        ds.subrange(0, ds.len() - d)
    } else {
        seq!['0']
    };
    let fr = if ds.len() >= d {
        ds.subrange(ds.len() - d, ds.len() as int)
    } else {
        zero_chars((d - ds.len()) as nat) + ds
    };
    let ft = trim_trailing_zeros(fr);
    if ft.len() == 0 {
        ip
    } else {
        ip + seq!['.'] + ft
    }
}

pub const LIMB_BASE: u128 = 0x1_0000_0000_0000_0000;

/// A 256-bit unsigned integer: `l0` is the least-significant limb.
#[derive(Clone, Copy, PartialEq, Eq, Structural, Debug, Hash)]
pub struct Amount {
    pub l0: u64,
    pub l1: u64,
    pub l2: u64,
    pub l3: u64,
}

impl Amount {
    /// The mathematical value of the four limbs.
    pub open spec fn as_nat(self) -> nat {
        self.l0 as nat + self.l1 as nat * 0x1_0000_0000_0000_0000
            + self.l2 as nat * 0x1_0000_0000_0000_0000_0000_0000_0000_0000
            + self.l3 as nat
            * 0x1_0000_0000_0000_0000_0000_0000_0000_0000_0000_0000_0000_0000
    }

    pub fn zero() -> (r: Amount)
        ensures
            r.as_nat() == 0,
    {
        Amount { l0: 0, l1: 0, l2: 0, l3: 0 }
    }

    pub fn from_u64(v: u64) -> (r: Amount)
        ensures
            r.as_nat() == v,
    {
        Amount { l0: v, l1: 0, l2: 0, l3: 0 }
    }

    pub fn from_limbs(l0: u64, l1: u64, l2: u64, l3: u64) -> (r: Amount)
        ensures
            r == (Amount { l0, l1, l2, l3 }),
    {
        Amount { l0, l1, l2, l3 }
    }

    pub fn is_zero(&self) -> (r: bool)
        ensures
            r <==> self.as_nat() == 0,
    {
        self.l0 == 0 && self.l1 == 0 && self.l2 == 0 && self.l3 == 0
    }

    /// Sum of the two values, `None` when it does not fit in 256 bits.
    pub fn checked_add(&self, other: &Amount) -> (r: Option<Amount>)
        ensures
            match r {
                Some(s) => s.as_nat() == self.as_nat() + other.as_nat(),
                None => self.as_nat() + other.as_nat()
                    >= 0x1_0000_0000_0000_0000_0000_0000_0000_0000_0000_0000_0000_0000_0000_0000_0000_0000,
            },
    {
        let s0: u128 = self.l0 as u128 + other.l0 as u128;
        let d0: u64 = (s0 % LIMB_BASE) as u64;
        let c0: u128 = s0 / LIMB_BASE;
        let s1: u128 = self.l1 as u128 + other.l1 as u128 + c0;
        let d1: u64 = (s1 % LIMB_BASE) as u64;
        let c1: u128 = s1 / LIMB_BASE;
        let s2: u128 = self.l2 as u128 + other.l2 as u128 + c1;
        let d2: u64 = (s2 % LIMB_BASE) as u64;
        let c2: u128 = s2 / LIMB_BASE;
        let s3: u128 = self.l3 as u128 + other.l3 as u128 + c2;
        let d3: u64 = (s3 % LIMB_BASE) as u64;
        let c3: u128 = s3 / LIMB_BASE;
        if c3 > 0 {
            None
        } else {
            Some(Amount { l0: d0, l1: d1, l2: d2, l3: d3 })
        }
    }

    /// Value comparison: `self >= other`.
    pub fn ge(&self, other: &Amount) -> (r: bool)
        ensures
            r <==> self.as_nat() >= other.as_nat(),
    {
        proof {
            lemma_limbs_bound(*self);
            lemma_limbs_bound(*other);
        }
        if self.l3 != other.l3 {
            self.l3 > other.l3
        } else if self.l2 != other.l2 {
            self.l2 > other.l2
        } else if self.l1 != other.l1 {
            self.l1 > other.l1
        } else {
            self.l0 >= other.l0
        }
    }
}

impl Amount {
    /// Quotient and remainder of division by ten.
    fn divmod10(&self) -> (r: (Amount, u64))
        ensures
            r.0.as_nat() * 10 + r.1 == self.as_nat(),
            r.1 < 10,
            r.0.as_nat() == self.as_nat() / 10,
            r.1 == self.as_nat() % 10,
            self.as_nat() > 0 ==> r.0.as_nat() < self.as_nat(),
    {
        let q3: u64 = self.l3 / 10;
        let r3: u64 = self.l3 % 10;
        let c2: u128 = (r3 as u128) * LIMB_BASE + self.l2 as u128;
        let q2: u64 = (c2 / 10) as u64;
        let r2: u64 = (c2 % 10) as u64;
        let c1: u128 = (r2 as u128) * LIMB_BASE + self.l1 as u128;
        let q1: u64 = (c1 / 10) as u64;
        let r1: u64 = (c1 % 10) as u64;
        let c0: u128 = (r1 as u128) * LIMB_BASE + self.l0 as u128;
        let q0: u64 = (c0 / 10) as u64;
        let r0: u64 = (c0 % 10) as u64;
        let q = Amount { l0: q0, l1: q1, l2: q2, l3: q3 };
        proof {
            assert(q.as_nat() * 10 + r0 == self.as_nat()) by {
                assert(self.l3 == q3 * 10 + r3);
                assert(c2 == q2 * 10 + r2);
                assert(c1 == q1 * 10 + r1);
                assert(c0 == q0 * 10 + r0);
            }
            vstd::arithmetic::div_mod::lemma_fundamental_div_mod_converse(
                self.as_nat() as int,
                10,
                q.as_nat() as int,
                r0 as int,
            );
        }
        (q, r0)
    }

    /// `self * 10 + add`, `None` on overflow past 256 bits.
    fn mul10_add(&self, add: u64) -> (r: Option<Amount>)
        ensures
            match r {
                Some(s) => s.as_nat() == self.as_nat() * 10 + add,
                None => self.as_nat() * 10 + add
                    >= 0x1_0000_0000_0000_0000_0000_0000_0000_0000_0000_0000_0000_0000_0000_0000_0000_0000,
            },
    {
        let c0: u128 = (self.l0 as u128) * 10 + add as u128;
        let d0: u64 = (c0 % LIMB_BASE) as u64;
        let c1: u128 = (self.l1 as u128) * 10 + c0 / LIMB_BASE;
        let d1: u64 = (c1 % LIMB_BASE) as u64;
        let c2: u128 = (self.l2 as u128) * 10 + c1 / LIMB_BASE;
        let d2: u64 = (c2 % LIMB_BASE) as u64;
        let c3: u128 = (self.l3 as u128) * 10 + c2 / LIMB_BASE;
        let d3: u64 = (c3 % LIMB_BASE) as u64;
        let carry: u128 = c3 / LIMB_BASE;
        let s = Amount { l0: d0, l1: d1, l2: d2, l3: d3 };
        proof {
            assert(s.as_nat()
                + carry
                * 0x1_0000_0000_0000_0000_0000_0000_0000_0000_0000_0000_0000_0000_0000_0000_0000_0000
                == self.as_nat() * 10 + add) by {
                assert(c0 == d0 + (c0 / LIMB_BASE) * LIMB_BASE);
                assert(c1 == d1 + (c1 / LIMB_BASE) * LIMB_BASE);
                assert(c2 == d2 + (c2 / LIMB_BASE) * LIMB_BASE);
                assert(c3 == d3 + carry * LIMB_BASE);
            }
        }
        if carry > 0 {
            None
        } else {
            Some(s)
        }
    }

    /// `self * 16 + add`, `None` on overflow past 256 bits.
    fn mul16_add(&self, add: u64) -> (r: Option<Amount>)
        ensures
            match r {
                Some(s) => s.as_nat() == self.as_nat() * 16 + add,
                None => self.as_nat() * 16 + add
                    >= 0x1_0000_0000_0000_0000_0000_0000_0000_0000_0000_0000_0000_0000_0000_0000_0000_0000,
            },
    {
        let c0: u128 = (self.l0 as u128) * 16 + add as u128;
        let d0: u64 = (c0 % LIMB_BASE) as u64;
        let c1: u128 = (self.l1 as u128) * 16 + c0 / LIMB_BASE;
        let d1: u64 = (c1 % LIMB_BASE) as u64;
        let c2: u128 = (self.l2 as u128) * 16 + c1 / LIMB_BASE;
        let d2: u64 = (c2 % LIMB_BASE) as u64;
        let c3: u128 = (self.l3 as u128) * 16 + c2 / LIMB_BASE;
        let d3: u64 = (c3 % LIMB_BASE) as u64;
        let carry: u128 = c3 / LIMB_BASE;
        let s = Amount { l0: d0, l1: d1, l2: d2, l3: d3 };
        proof {
            assert(s.as_nat()
                + carry
                * 0x1_0000_0000_0000_0000_0000_0000_0000_0000_0000_0000_0000_0000_0000_0000_0000_0000
                == self.as_nat() * 16 + add) by {
                assert(c0 == d0 + (c0 / LIMB_BASE) * LIMB_BASE);
                assert(c1 == d1 + (c1 / LIMB_BASE) * LIMB_BASE);
                assert(c2 == d2 + (c2 / LIMB_BASE) * LIMB_BASE);
                assert(c3 == d3 + carry * LIMB_BASE);
            }
        }
        if carry > 0 {
            None
        } else {
            Some(s)
        }
    }
}

impl Amount {
    /// ASCII bytes of the decimal representation, most significant first.
    fn to_dec_digits(&self) -> (r: Vec<u8>)
        ensures
            ascii_seq(r@) == dec_rep(self.as_nat()),
            forall|i: int| 0 <= i < r@.len() ==> 48 <= #[trigger] r@[i] <= 57,
            r@.len() > 0,
    {
        let ghost n = self.as_nat();
        let mut rev: Vec<u8> = Vec::new();
        if self.is_zero() {
            rev.push(48);
            assert(ascii_seq(rev@) =~= dec_rep(n));
            return rev;
        }
        let mut a = *self;
        while !a.is_zero()
            invariant
                n > 0,
                forall|i: int| 0 <= i < rev@.len() ==> 48 <= #[trigger] rev@[i] <= 57,
                a.as_nat() > 0 ==> dec_rep(n) =~= dec_rep(a.as_nat()) + ascii_seq(
                    rev@,
                ).reverse(),
                a.as_nat() == 0 ==> rev@.len() > 0 && dec_rep(n) =~= ascii_seq(
                    rev@,
                ).reverse(),
            decreases a.as_nat(),
        {
            let ghost a0 = a.as_nat();
            let ghost rev0 = rev@;
            let (q, d) = a.divmod10();
            rev.push(48 + d as u8);
            a = q;
            proof {
                assert(ascii_seq(rev@) =~= ascii_seq(rev0).push(((48 + d) as u8) as char));
                assert(ascii_seq(rev@).reverse() =~= seq![((48 + d) as u8) as char]
                    + ascii_seq(rev0).reverse());
                assert(digit_char(a0 % 10) == ((48 + d) as u8) as char);
                if a0 < 10 {
                    assert(dec_rep(a0) =~= seq![digit_char(a0)]);
                    assert(a0 % 10 == a0);
                    assert(dec_rep(n) =~= ascii_seq(rev@).reverse());
                } else {
                    assert(dec_rep(a0) =~= dec_rep(a0 / 10).push(digit_char(a0 % 10)));
                    assert(dec_rep(a0) + ascii_seq(rev0).reverse() =~= dec_rep(a.as_nat())
                        + ascii_seq(rev@).reverse());
                }
            }
        }
        let mut out: Vec<u8> = Vec::new();
        let mut i: usize = rev.len();
        while i > 0
            invariant
                i <= rev@.len(),
                out@.len() == rev@.len() - i,
                forall|j: int| 0 <= j < out@.len() ==> out@[j] == rev@[rev@.len() - 1 - j],
            decreases i,
        {
            i -= 1;
            let b = rev[i];
            out.push(b);
        }
        proof {
            assert(ascii_seq(out@) =~= ascii_seq(rev@).reverse());
            assert(forall|j: int| 0 <= j < out@.len() ==> 48 <= #[trigger] out@[j] <= 57);
        }
        out
    }

    /// The decimal representation, e.g. `"0"`, `"1000000000000000000"`.
    pub fn to_dec_string(&self) -> (r: String)
        ensures
            r@ == dec_rep(self.as_nat()),
    {
        let digits = self.to_dec_digits();
        ascii_to_string(digits)
    }

    /// The human-readable value with `decimals` fractional places, trailing
    /// zeros trimmed, e.g. one token of 18 decimals is `"1"` and four tenths
    /// is `"0.4"`.
    pub fn format_units(&self, decimals: u8) -> (r: String)
        ensures
            r@ == format_units_spec(self.as_nat(), decimals as nat),
    {
        let digits = self.to_dec_digits();
        let d = decimals as usize;
        let ghost ds = dec_rep(self.as_nat());
        // Integer part.
        let mut out: Vec<u8> = Vec::new();
        if digits.len() > d {
            let mut i: usize = 0;
            while i < digits.len() - d
                invariant
                    digits@.len() > d,
                    i <= digits@.len() - d,
                    out@ =~= digits@.subrange(0, i as int),
                decreases digits@.len() - d - i,
            {
                let b = digits[i];
                out.push(b);
                i += 1;
            }
            assert(ascii_seq(out@) =~= ds.subrange(0, ds.len() - d));
        } else {
            out.push(48);
            assert(ascii_seq(out@) =~= seq!['0']);
        }
        let ghost ip = ascii_seq(out@);
        // Fractional part, zero-padded on the left to `d` digits.
        let mut fr: Vec<u8> = Vec::new();
        let pad = if digits.len() >= d {
            0
        } else {
            d - digits.len()
        };
        let mut i: usize = 0;
        while i < pad
            invariant
                i <= pad,
                fr@ =~= Seq::new(i as nat, |j: int| 48u8),
            decreases pad - i,
        {
            fr.push(48);
            i += 1;
        }
        let start = if digits.len() >= d {
            digits.len() - d
        } else {
            0
        };
        let mut i: usize = start;
        while i < digits.len()
            invariant
                start <= i <= digits@.len(),
                fr@ =~= Seq::new(pad as nat, |j: int| 48u8) + digits@.subrange(
                    start as int,
                    i as int,
                ),
            decreases digits@.len() - i,
        {
            let b = digits[i];
            fr.push(b);
            i += 1;
        }
        proof {
            if digits@.len() >= d {
                assert(ascii_seq(fr@) =~= ds.subrange(ds.len() - d, ds.len() as int));
            } else {
                assert(ascii_seq(Seq::new(pad as nat, |j: int| 48u8)) =~= zero_chars(
                    (d - ds.len()) as nat,
                ));
                assert(ascii_seq(fr@) =~= zero_chars((d - ds.len()) as nat) + ds);
            }
        }
        let ghost fr_raw = ascii_seq(fr@);
        // Trim trailing zeros of the fraction.
        let mut flen: usize = fr.len();
        proof {
            assert(fr@.subrange(0, flen as int) =~= fr@);
        }
        while flen > 0 && fr[flen - 1] == 48
            invariant
                flen <= fr@.len(),
                trim_trailing_zeros(ascii_seq(fr@.subrange(0, flen as int)))
                    == trim_trailing_zeros(fr_raw),
            decreases flen,
        {
            proof {
                let pre = ascii_seq(fr@.subrange(0, flen as int));
                assert(pre.last() == '0');
                assert(pre.drop_last() =~= ascii_seq(fr@.subrange(0, flen - 1)));
            }
            flen -= 1;
        }
        proof {
            let pre = ascii_seq(fr@.subrange(0, flen as int));
            if flen > 0 {
                assert(pre.last() != '0');
                assert(trim_trailing_zeros(pre) == pre);
            } else {
                assert(pre =~= Seq::<char>::empty());
                assert(trim_trailing_zeros(pre) =~= pre);
            }
        }
        if flen > 0 {
            out.push(46);
            let ghost out_dot = out@;
            let mut i: usize = 0;
            while i < flen
                invariant
                    flen <= fr@.len(),
                    i <= flen,
                    out@ =~= out_dot + fr@.subrange(0, i as int),
                decreases flen - i,
            {
                let b = fr[i];
                out.push(b);
                proof {
                    assert(out@ =~= out_dot + fr@.subrange(0, i + 1));
                }
                i += 1;
            }
            proof {
                assert(ascii_seq(out_dot) =~= ip + seq!['.']);
                assert(ascii_seq(out@) =~= ip + seq!['.'] + ascii_seq(
                    fr@.subrange(0, flen as int),
                ));
            }
        }
        ascii_to_string(out)
    }
}

impl Amount {
    /// Parses a string of decimal digits; `None` when the string is empty,
    /// holds a non-digit, or the value needs more than 256 bits.
    pub fn from_dec_str(s: &str) -> (r: Option<Amount>)
        ensures
            match r {
                Some(a) => s@.len() > 0 && all_dec_digits(s@) && a.as_nat() == dec_val(s@)
                    && dec_val(s@)
                    < 0x1_0000_0000_0000_0000_0000_0000_0000_0000_0000_0000_0000_0000_0000_0000_0000_0000,
                None => s@.len() == 0 || !all_dec_digits(s@) || dec_val(s@)
                    >= 0x1_0000_0000_0000_0000_0000_0000_0000_0000_0000_0000_0000_0000_0000_0000_0000_0000,
            },
    {
        let len = s.unicode_len();
        if len == 0 {
            return None;
        }
        let mut acc = Amount::zero();
        let mut i: usize = 0;
        while i < len
            invariant
                len == s@.len(),
                i <= len,
                forall|j: int| 0 <= j < i ==> is_dec_digit(#[trigger] s@[j]),
                acc.as_nat() == dec_val(s@.subrange(0, i as int)),
            decreases len - i,
        {
            let c = s.get_char(i);
            let u = c as u32;
            if u < 48 || u > 57 {
                proof {
                    assert(!all_dec_digits(s@));
                }
                return None;
            }
            let d: u64 = (u - 48) as u64;
            let ghost pre = s@.subrange(0, i as int);
            proof {
                assert(s@.subrange(0, i + 1).drop_last() =~= pre);
                assert(dec_val(s@.subrange(0, i + 1)) == dec_val(pre) * 10 + d);
            }
            match acc.mul10_add(d) {
                Some(next) => {
                    acc = next;
                },
                None => {
                    proof {
                        lemma_dec_val_extend_le(s@, i + 1);
                    }
                    return None;
                },
            }
            i += 1;
        }
        proof {
            assert(s@.subrange(0, len as int) =~= s@);
        }
        Some(acc)
    }

    /// Parses a string of hexadecimal digits (no `0x` prefix, either case);
    /// `None` when the string is empty, holds a non-digit, or the value
    /// needs more than 256 bits.
    pub fn from_hex_str(s: &str) -> (r: Option<Amount>)
        ensures
            match r {
                Some(a) => s@.len() > 0 && all_hex_digits(s@) && a.as_nat() == hex_val(s@)
                    && hex_val(s@)
                    < 0x1_0000_0000_0000_0000_0000_0000_0000_0000_0000_0000_0000_0000_0000_0000_0000_0000,
                None => s@.len() == 0 || !all_hex_digits(s@) || hex_val(s@)
                    >= 0x1_0000_0000_0000_0000_0000_0000_0000_0000_0000_0000_0000_0000_0000_0000_0000_0000,
            },
    {
        let len = s.unicode_len();
        if len == 0 {
            return None;
        }
        let mut acc = Amount::zero();
        let mut i: usize = 0;
        while i < len
            invariant
                len == s@.len(),
                i <= len,
                forall|j: int| 0 <= j < i ==> is_hex_digit(#[trigger] s@[j]),
                acc.as_nat() == hex_val(s@.subrange(0, i as int)),
            decreases len - i,
        {
            let c = s.get_char(i);
            let u = c as u32;
            let d: u64 = if u >= 48 && u <= 57 {
                (u - 48) as u64
            } else if u >= 97 && u <= 102 {
                (u - 87) as u64
            } else if u >= 65 && u <= 70 {
                (u - 55) as u64
            } else {
                proof {
                    assert(!all_hex_digits(s@));
                }
                return None;
            };
            let ghost pre = s@.subrange(0, i as int);
            proof {
                assert(s@.subrange(0, i + 1).drop_last() =~= pre);
                assert(hex_val(s@.subrange(0, i + 1)) == hex_val(pre) * 16 + d);
            }
            match acc.mul16_add(d) {
                Some(next) => {
                    acc = next;
                },
                None => {
                    proof {
                        lemma_hex_val_extend_le(s@, i + 1);
                    }
                    return None;
                },
            }
            i += 1;
        }
        proof {
            assert(s@.subrange(0, len as int) =~= s@);
        }
        Some(acc)
    }
}

/// Extending a digit string to the right never decreases its value.
proof fn lemma_dec_val_extend_le(s: Seq<char>, i: int)
    requires
        0 <= i <= s.len(),
    ensures
        dec_val(s.subrange(0, i)) <= dec_val(s),
    decreases s.len() - i,
{
    if i < s.len() {
        assert(s.subrange(0, i + 1).drop_last() =~= s.subrange(0, i));
        assert(dec_val(s.subrange(0, i + 1)) == dec_val(s.subrange(0, i)) * 10 + dec_digit_val(
            s.subrange(0, i + 1).last(),
        ));
        lemma_dec_val_extend_le(s, i + 1);
    } else {
        assert(s.subrange(0, i) =~= s);
    }
}

/// Extending a hex-digit string to the right never decreases its value.
proof fn lemma_hex_val_extend_le(s: Seq<char>, i: int)
    requires
        0 <= i <= s.len(),
    ensures
        hex_val(s.subrange(0, i)) <= hex_val(s),
    decreases s.len() - i,
{
    if i < s.len() {
        assert(s.subrange(0, i + 1).drop_last() =~= s.subrange(0, i));
        assert(hex_val(s.subrange(0, i + 1)) == hex_val(s.subrange(0, i)) * 16 + hex_digit_val(
            s.subrange(0, i + 1).last(),
        ));
        lemma_hex_val_extend_le(s, i + 1);
    } else {
        assert(s.subrange(0, i) =~= s);
    }
}

/// The value of the limbs below each position is less than that position's
/// weight.
proof fn lemma_limbs_bound(a: Amount)
    ensures
        a.l0 as nat + a.l1 as nat * 0x1_0000_0000_0000_0000
            < 0x1_0000_0000_0000_0000_0000_0000_0000_0000,
        a.l0 as nat + a.l1 as nat * 0x1_0000_0000_0000_0000
            + a.l2 as nat * 0x1_0000_0000_0000_0000_0000_0000_0000_0000
            < 0x1_0000_0000_0000_0000_0000_0000_0000_0000_0000_0000_0000_0000,
        a.as_nat()
            < 0x1_0000_0000_0000_0000_0000_0000_0000_0000_0000_0000_0000_0000_0000_0000_0000_0000,
{
}

} // verus!
