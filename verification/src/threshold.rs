//! The match threshold as an exact rational.
//!
//! The command line gives the threshold as a decimal percentage; the
//! library keeps it as the exact fraction `num / den` (negated when
//! `negative` holds), with `den` carrying the factor `100` that turns the
//! percentage into a fraction of one. A score meets the threshold exactly
//! when its rational value is at least the threshold's, decided by
//! cross-multiplication, so a threshold of zero or less admits every pair
//! and one above `1` admits none.

use vstd::prelude::*;

use crate::score::Score;

verus! {

/// Largest numerator a parsed threshold can carry: eighteen decimal digits.
pub const MAX_THRESHOLD_NUM: u64 = 999_999_999_999_999_999;

/// Largest denominator a parsed threshold can carry: `100 * 10^9`.
pub const MAX_THRESHOLD_DEN: u64 = 100_000_000_000;

/// The least similarity a reported pair must have: the rational
/// `num / den`, negative when `negative` holds.
#[derive(Clone, Copy, PartialEq, Eq, Structural, Debug)]
pub struct Threshold {
    pub negative: bool,
    pub num: u64,
    pub den: u64,
}

impl Threshold {
    /// The fraction's parts are bounded so that every cross-multiplication
    /// against a score fits in 128 bits.
    pub open spec fn wf(self) -> bool {
        &&& 1 <= self.den <= MAX_THRESHOLD_DEN
        &&& self.num <= MAX_THRESHOLD_NUM
    }

    /// Signed numerator of the threshold's value.
    pub open spec fn val_num(self) -> int {
        if self.negative {
            -(self.num as int)
        } else {
            self.num as int
        }
    }

    /// Denominator of the threshold's value; always positive.
    pub open spec fn val_den(self) -> int {
        self.den as int
    }

    /// The score is at least the threshold, on the exact rational values.
    pub open spec fn admits(self, s: Score) -> bool {
        s.num() * self.val_den() >= self.val_num() * s.den()
    }

    /// Decides exactly whether the score is at least the threshold.
    pub fn admits_exec(&self, s: &Score) -> (r: bool)
        requires
            self.wf(),
            s.wf(),
        ensures
            r == self.admits(*s),
    {
        let sn = s.num_exec() as u128;
        let sd = s.den_exec() as u128;
        if self.negative {
            proof {
                assert(s.num() * self.val_den() >= 0) by (nonlinear_arith)
                    requires
                        s.num() >= 0,
                        self.val_den() > 0,
                ;
                assert(self.val_num() * s.den() <= 0) by (nonlinear_arith)
                    requires
                        self.val_num() <= 0,
                        s.den() > 0,
                ;
            }
            true
        } else {
            proof {
                assert(sn * (self.den as u128) < 0x1_0000_0000_0000_0000 * 0x1_0000_0000_0000_0000)
                    by (nonlinear_arith)
                    requires
                        sn < 0x1_0000_0000_0000_0000,
                        self.den < 0x1_0000_0000_0000_0000,
                ;
                assert((self.num as u128) * sd < 0x1_0000_0000_0000_0000 * 0x1_0000_0000_0000_0000)
                    by (nonlinear_arith)
                    requires
                        self.num < 0x1_0000_0000_0000_0000,
                        sd < 0x1_0000_0000_0000_0000,
                ;
            }
            sn * (self.den as u128) >= (self.num as u128) * sd
        }
    }

    /// The threshold the tool uses when none is given: eighty percent.
    pub fn default_percent() -> (t: Threshold)
        ensures
            t == (Threshold { negative: false, num: 80u64, den: 100u64 }),
            t.wf(),
    {
        Threshold { negative: false, num: 80, den: 100 }
    }
}

/// ASCII code of `+`.
pub const PLUS: u8 = 43;

/// ASCII code of `-`.
pub const MINUS: u8 = 45;

/// ASCII code of `.`.
pub const DOT: u8 = 46;

/// ASCII code of `0`.
pub const ZERO: u8 = 48;

/// ASCII code of `9`.
pub const NINE: u8 = 57;

/// The byte is an ASCII decimal digit.
pub open spec fn is_digit(b: u8) -> bool {
    ZERO <= b <= NINE
}

/// Every byte of the sequence is an ASCII decimal digit.
pub open spec fn all_digits(s: Seq<u8>) -> bool {
    forall|i: int| 0 <= i < s.len() ==> is_digit(#[trigger] s[i])
}

/// The number the digit bytes spell, most significant first.
pub open spec fn digits_val(s: Seq<u8>) -> int
    decreases s.len(),
{
    if s.len() == 0 {
        0
    } else {
        digits_val(s.drop_last()) * 10 + (s.last() - ZERO)
    }
}

/// Ten to the `k`.
pub open spec fn pow10(k: nat) -> int
    decreases k,
{
    if k == 0 {
        1
    } else {
        10 * pow10((k - 1) as nat)
    }
}

/// How many bytes a leading sign takes: one for `+` or `-`, else none.
pub open spec fn sign_len(s: Seq<u8>) -> int {
    if s.len() > 0 && (s[0] == PLUS || s[0] == MINUS) {
        1
    } else {
        0
    }
}

/// The input starts with a minus sign.
pub open spec fn is_negative(s: Seq<u8>) -> bool {
    s.len() > 0 && s[0] == MINUS
}

/// The input without its sign.
pub open spec fn body_of(s: Seq<u8>) -> Seq<u8> {
    s.skip(sign_len(s))
}

/// Index of the first dot, or the length when there is none.
pub open spec fn first_dot(s: Seq<u8>) -> int
    decreases s.len(),
{
    if s.len() == 0 {
        0
    } else if s[0] == DOT {
        0
    } else {
        1 + first_dot(s.drop_first())
    }
}

/// The digits before the dot (or all of the body when there is no dot).
pub open spec fn int_digits(s: Seq<u8>) -> Seq<u8> {
    body_of(s).take(first_dot(body_of(s)))
}

/// The digits after the dot; empty when there is no dot.
pub open spec fn frac_digits(s: Seq<u8>) -> Seq<u8> {
    let body = body_of(s);
    if first_dot(body) < body.len() {
        body.skip(first_dot(body) + 1)
    } else {
        Seq::empty()
    }
}

/// The input spells a decimal percentage this parser accepts: an optional
/// sign, then digits with at most one dot anywhere among them, at least one
/// digit in all, and at most nine digits on either side of the dot.
pub open spec fn percent_valid(s: Seq<u8>) -> bool {
    &&& all_digits(int_digits(s))
    &&& all_digits(frac_digits(s))
    &&& int_digits(s).len() + frac_digits(s).len() >= 1
    &&& int_digits(s).len() <= 9
    &&& frac_digits(s).len() <= 9
}

/// `first_dot` is the index of the first dot: everything before it is not a
/// dot, and it points at a dot unless there is none.
proof fn lemma_first_dot(s: Seq<u8>)
    ensures
        0 <= first_dot(s) <= s.len(),
        first_dot(s) < s.len() ==> s[first_dot(s)] == DOT,
        forall|k: int| 0 <= k < first_dot(s) ==> s[k] != DOT,
    decreases s.len(),
{
    if s.len() == 0 {
    } else if s[0] == DOT {
    } else {
        lemma_first_dot(s.drop_first());
        assert forall|k: int| 0 <= k < first_dot(s) implies s[k] != DOT by {
            if k > 0 {
                assert(s.drop_first()[k - 1] != DOT);
            }
        }
    }
}

/// Digit strings spell values below ten to their length.
proof fn lemma_digits_val_bound(s: Seq<u8>)
    requires
        all_digits(s),
    ensures
        0 <= digits_val(s) < pow10(s.len()),
    decreases s.len(),
{
    if s.len() == 0 {
    } else {
        assert(all_digits(s.drop_last())) by {
            assert(forall|i: int| 0 <= i < s.len() - 1 ==> s.drop_last()[i] == s[i]);
        }
        lemma_digits_val_bound(s.drop_last());
        assert(is_digit(s.last()));
        assert(pow10(s.len()) == 10 * pow10((s.len() - 1) as nat));
    }
}

/// Appending a digit multiplies the value by ten and adds the digit.
proof fn lemma_digits_val_push(s: Seq<u8>, d: u8)
    ensures
        digits_val(s.push(d)) == digits_val(s) * 10 + (d - ZERO),
{
    assert(s.push(d).drop_last() =~= s);
    assert(s.push(d).last() == d);
}

/// Ten to the power is nondecreasing in the exponent.
proof fn lemma_pow10_le(a: nat, b: nat)
    requires
        a <= b,
    ensures
        pow10(a) <= pow10(b),
        pow10(a) >= 1,
    decreases b,
{
    if b == 0 {
    } else if a == b {
        lemma_pow10_le((a - 1) as nat, (b - 1) as nat);
    } else {
        lemma_pow10_le(a, (b - 1) as nat);
    }
}

/// The small powers of ten, as numbers.
proof fn lemma_pow10_values()
    ensures
        pow10(0) == 1,
        pow10(9) == 1_000_000_000,
        pow10(18) == 1_000_000_000_000_000_000,
{
    assert(pow10(0) == 1);
    assert(pow10(1) == 10);
    assert(pow10(2) == 100);
    assert(pow10(3) == 1000);
    assert(pow10(4) == 10000);
    assert(pow10(5) == 100000);
    assert(pow10(6) == 1000000);
    assert(pow10(7) == 10000000);
    assert(pow10(8) == 100000000);
    assert(pow10(9) == 1000000000);
    assert(pow10(10) == 10000000000);
    assert(pow10(11) == 100000000000);
    assert(pow10(12) == 1000000000000);
    assert(pow10(13) == 10000000000000);
    assert(pow10(14) == 100000000000000);
    assert(pow10(15) == 1000000000000000);
    assert(pow10(16) == 10000000000000000);
    assert(pow10(17) == 100000000000000000);
    assert(pow10(18) == 1000000000000000000);
}

/// Parses a decimal percentage, such as `80` or `66.67`, into the exact
/// threshold it names: the spelled number divided by one hundred. An
/// optional leading `+` or `-` is taken as the sign; at most nine digits
/// may stand on each side of the dot. Any other input is rejected.
pub fn parse_percent(bytes: &Vec<u8>) -> (r: Option<Threshold>)
    ensures
        r is Some <==> percent_valid(bytes@),
        match r {
            Some(t) => {
                &&& t.negative == is_negative(bytes@)
                &&& t.num == digits_val(int_digits(bytes@) + frac_digits(bytes@))
                &&& t.den == 100 * pow10(frac_digits(bytes@).len())
                &&& t.wf()
            },
            None => true,
        },
{
    proof {
        lemma_pow10_values();
        lemma_first_dot(body_of(bytes@));
    }
    let ghost body = body_of(bytes@);
    let ghost fd = first_dot(body);
    let n = bytes.len();
    let mut pos: usize = 0;
    let mut negative = false;
    if n > 0 && (bytes[0] == PLUS || bytes[0] == MINUS) {
        negative = bytes[0] == MINUS;
        pos = 1;
    }
    let ghost sign = pos as int;
    assert(sign == sign_len(bytes@));
    assert(negative == is_negative(bytes@));
    // Find the dot, if any.
    let mut dot: usize = pos;
    while dot < n && bytes[dot] != DOT
        invariant
            n == bytes@.len(),
            body == body_of(bytes@),
            sign == sign_len(bytes@),
            sign <= dot <= n,
            forall|k: int| sign <= k < dot ==> bytes@[k] != DOT,
        decreases n - dot,
    {
        dot += 1;
    }
    proof {
        assert forall|k: int| 0 <= k < dot - sign implies body[k] != DOT by {
            assert(body[k] == bytes@[sign + k]);
        }
        if dot < n {
            assert(body[dot - sign] == DOT);
            assert(fd == dot - sign);
        } else {
            assert(fd == body.len()) by {
                if fd < body.len() {
                    assert(body[fd] == DOT);
                    assert(bytes@[sign + fd] != DOT);
                }
            }
        }
        assert(int_digits(bytes@) =~= bytes@.subrange(sign, dot as int));
    }
    let int_count = dot - pos;
    let frac_count = if dot < n {
        n - dot - 1
    } else {
        0
    };
    proof {
        if dot < n {
            assert(frac_digits(bytes@) =~= bytes@.subrange(dot + 1, n as int));
        } else {
            assert(frac_digits(bytes@) =~= Seq::<u8>::empty());
        }
    }
    if int_count > 9 || frac_count > 9 || int_count + frac_count == 0 {
        return None;
    }
    // The digits before the dot.
    let mut acc: u64 = 0;
    let mut q: usize = pos;
    while q < dot
        invariant
            n == bytes@.len(),
            sign == sign_len(bytes@),
            sign <= pos <= q <= dot <= n,
            pos == sign,
            dot - pos <= 9,
            int_digits(bytes@) == bytes@.subrange(sign, dot as int),
            all_digits(bytes@.subrange(sign, q as int)),
            acc == digits_val(bytes@.subrange(sign, q as int)),
            acc < pow10((q - sign) as nat),
            pow10(9) == 1_000_000_000,
        decreases dot - q,
    {
        let b = bytes[q];
        if b < ZERO || b > NINE {
            proof {
                assert(int_digits(bytes@)[q - sign] == b);
                assert(!all_digits(int_digits(bytes@)));
            }
            return None;
        }
        proof {
            lemma_digits_val_push(bytes@.subrange(sign, q as int), b);
            assert(bytes@.subrange(sign, q + 1) =~= bytes@.subrange(sign, q as int).push(b));
            lemma_pow10_le((q + 1 - sign) as nat, 9nat);
            assert(pow10((q + 1 - sign) as nat) == 10 * pow10((q - sign) as nat));
        }
        acc = acc * 10 + ((b - ZERO) as u64);
        q += 1;
    }
    proof {
        assert(bytes@.subrange(sign, dot as int) == int_digits(bytes@));
        assert(acc == digits_val(int_digits(bytes@)));
        assert(all_digits(int_digits(bytes@)));
    }
    // The digits after the dot.
    let ghost digs = int_digits(bytes@);
    let mut den: u64 = 100;
    if dot < n {
        let mut c: usize = 0;
        proof {
            assert(digs + bytes@.subrange(dot + 1, dot + 1) =~= digs);
            lemma_digits_val_bound(digs);
            lemma_pow10_le(digs.len(), 18nat);
        }
        while c < frac_count
            invariant
                n == bytes@.len(),
                sign == sign_len(bytes@),
                sign <= dot < n,
                frac_count == n - dot - 1,
                frac_count <= 9,
                0 <= c <= frac_count,
                digs == int_digits(bytes@),
                digs.len() <= 9,
                all_digits(digs),
                frac_digits(bytes@) == bytes@.subrange(dot + 1, n as int),
                all_digits(bytes@.subrange(dot + 1, dot + 1 + c)),
                acc == digits_val(digs + bytes@.subrange(dot + 1, dot + 1 + c)),
                acc < pow10((digs.len() + c) as nat),
                den == 100 * pow10(c as nat),
                pow10(9) == 1_000_000_000,
                pow10(18) == 1_000_000_000_000_000_000,
            decreases frac_count - c,
        {
            let b = bytes[dot + 1 + c];
            if b < ZERO || b > NINE {
                proof {
                    assert(frac_digits(bytes@)[c as int] == b);
                    assert(!all_digits(frac_digits(bytes@)));
                }
                return None;
            }
            proof {
                let seen = digs + bytes@.subrange(dot + 1, dot + 1 + c);
                lemma_digits_val_push(seen, b);
                assert(digs + bytes@.subrange(dot + 1, dot + 2 + c) =~= seen.push(b));
                assert(bytes@.subrange(dot + 1, dot + 2 + c) =~= bytes@.subrange(
                    dot + 1,
                    dot + 1 + c,
                ).push(b));
                lemma_pow10_le((digs.len() + c + 1) as nat, 18nat);
                assert(pow10((digs.len() + c + 1) as nat) == 10 * pow10(
                    (digs.len() + c) as nat,
                ));
                lemma_pow10_le((c + 1) as nat, 9nat);
                assert(pow10((c + 1) as nat) == 10 * pow10(c as nat));
            }
            acc = acc * 10 + ((b - ZERO) as u64);
            den = den * 10;
            c += 1;
        }
        proof {
            assert(bytes@.subrange(dot + 1, n as int) == frac_digits(bytes@));
            assert(acc == digits_val(digs + frac_digits(bytes@)));
        }
    } else {
        proof {
            assert(digs + frac_digits(bytes@) =~= digs);
        }
    }
    proof {
        lemma_digits_val_bound(digs + frac_digits(bytes@));
        lemma_pow10_le((digs + frac_digits(bytes@)).len(), 18nat);
        lemma_pow10_le(frac_digits(bytes@).len(), 9nat);
    }
    Some(Threshold { negative, num: acc, den })
}

} // verus!
