//! Decimal notation for the integers that the wire protocol carries as
//! text: rendering, and parsing with explicit failure instead of panic.

use vstd::prelude::*;

verus! {

/// The ASCII decimal digits of `n`, most significant first.
pub open spec fn dec_digits(n: nat) -> Seq<u8>
    decreases n,
{
    if n < 10 {
        seq![(48 + n) as u8]
    } else {
        dec_digits(n / 10) + seq![(48 + n % 10) as u8]
    }
}

/// Decimal digits are ASCII digit bytes.
pub proof fn lemma_dec_digits_ascii(n: nat)
    ensures
        dec_digits(n).len() > 0,
        forall|i: int| 0 <= i < dec_digits(n).len() ==> 48 <= #[trigger] dec_digits(n)[i] <= 57,
    decreases n,
{
    if n < 10 {
    } else {
        lemma_dec_digits_ascii(n / 10);
    }
}

/// Renders `n` in decimal.
pub fn u64_to_dec(n: u64) -> (r: Vec<u8>)
    ensures
        r@ == dec_digits(n as nat),
    decreases n,
{
    if n < 10 {
        let mut v: Vec<u8> = Vec::new();
        v.push(48 + n as u8);
        proof {
            assert(v@ =~= dec_digits(n as nat));
        }
        v
    } else {
        let mut v = u64_to_dec(n / 10);
        v.push(48 + (n % 10) as u8);
        proof {
            assert(v@ =~= dec_digits(n as nat));
        }
        v
    }
}

/// The value of a digit run, most significant first.
pub open spec fn dec_val(b: Seq<u8>) -> int
    decreases b.len(),
{
    if b.len() == 0 {
        0
    } else {
        dec_val(b.drop_last()) * 10 + (b.last() - 48)
    }
}

/// Every byte of the run is an ASCII digit.
pub open spec fn all_digits(b: Seq<u8>) -> bool {
    forall|i: int| 0 <= i < b.len() ==> 48 <= #[trigger] b[i] <= 57
}

/// A digit run denotes a nonnegative number.
pub proof fn lemma_dec_val_nonneg(b: Seq<u8>)
    requires
        all_digits(b),
    ensures
        dec_val(b) >= 0,
    decreases b.len(),
{
    if b.len() > 0 {
        assert(all_digits(b.drop_last()));
        lemma_dec_val_nonneg(b.drop_last());
    }
}

/// A digit run denotes a number at least as large as any of its prefixes.
pub proof fn lemma_dec_val_prefix(b: Seq<u8>, i: int)
    requires
        0 <= i <= b.len(),
        all_digits(b),
    ensures
        dec_val(b.take(i)) <= dec_val(b),
    decreases b.len() - i,
{
    if i < b.len() {
        assert(b.take(i + 1).drop_last() =~= b.take(i));
        assert(b.take(i + 1).last() == b[i]);
        assert(all_digits(b.take(i)));
        lemma_dec_val_nonneg(b.take(i));
        assert(dec_val(b.take(i)) <= dec_val(b.take(i + 1)));
        lemma_dec_val_prefix(b, i + 1);
    } else {
        assert(b.take(i) =~= b);
    }
}

/// The value an unsigned decimal run denotes, if it is nonempty, all
/// digits, and fits in 32 bits.
pub open spec fn spec_parse_u32(b: Seq<u8>) -> Option<u32> {
    if b.len() > 0 && all_digits(b) && dec_val(b) <= u32::MAX {
        Some(dec_val(b) as u32)
    } else {
        None
    }
}

/// Parses an unsigned decimal number.  Returns the value exactly when
/// the run is nonempty, all digits, and the value fits in 32 bits.
pub fn parse_u32(b: &[u8]) -> (r: Option<u32>)
    ensures
        r == spec_parse_u32(b@),
{
    if b.len() == 0 {
        return None;
    }
    let mut acc: u64 = 0;
    let mut i: usize = 0;
    while i < b.len()
        invariant
            0 <= i <= b@.len(),
            forall|j: int| 0 <= j < i ==> 48 <= #[trigger] b@[j] <= 57,
            acc == dec_val(b@.take(i as int)),
            acc <= u32::MAX,
        decreases b@.len() - i,
    {
        let d = b[i];
        if d < 48 || d > 57 {
            proof {
                assert(!all_digits(b@));
            }
            return None;
        }
        proof {
            assert(b@.take(i + 1).drop_last() =~= b@.take(i as int));
            assert(b@.take(i + 1).last() == b@[i as int]);
        }
        acc = acc * 10 + (d - 48) as u64;
        i = i + 1;
        if acc > 0xFFFF_FFFF {
            proof {
                assert(all_digits(b@) ==> dec_val(b@) > u32::MAX) by {
                    if all_digits(b@) {
                        lemma_dec_val_prefix(b@, i as int);
                    }
                }
            }
            return None;
        }
    }
    proof {
        assert(b@.take(b@.len() as int) =~= b@);
    }
    Some(acc as u32)
}

/// Parses a signed decimal number with an optional sign, as the text
/// protocol writes one.  Returns the value exactly when the run is a
/// well-formed signed decimal that fits in 32 bits.
pub fn parse_i32(b: &[u8]) -> (r: Option<i32>)
    ensures
        r == spec_parse_i32(b@),
{
    if b.len() == 0 {
        return None;
    }
    let (neg, digits_start): (bool, usize) = if b[0] == 45 {
        (true, 1)
    } else if b[0] == 43 {
        (false, 1)
    } else {
        (false, 0)
    };
    let ghost digits = b@.skip(digits_start as int);
    let mut acc: u64 = 0;
    let mut i: usize = digits_start;
    while i < b.len()
        invariant
            b@.len() > 0,
            digits_start <= i <= b@.len(),
            digits == b@.skip(digits_start as int),
            digits == (if b@[0] == 45 || b@[0] == 43 {
                b@.skip(1)
            } else {
                b@
            }),
            neg == (b@[0] == 45),
            digits_start == (if b@[0] == 45 || b@[0] == 43 {
                1int
            } else {
                0int
            }),
            forall|j: int| digits_start <= j < i ==> 48 <= #[trigger] b@[j] <= 57,
            acc == dec_val(b@.subrange(digits_start as int, i as int)),
            acc <= 0x8000_0000,
        decreases b@.len() - i,
    {
        let d = b[i];
        if d < 48 || d > 57 {
            proof {
                assert(digits[i - digits_start] == b@[i as int]);
                assert(!all_digits(digits));
            }
            return None;
        }
        proof {
            assert(b@.subrange(digits_start as int, i + 1).drop_last() =~= b@.subrange(
                digits_start as int,
                i as int,
            ));
            assert(b@.subrange(digits_start as int, i + 1).last() == b@[i as int]);
        }
        acc = acc * 10 + (d - 48) as u64;
        i = i + 1;
        if acc > 0x8000_0000 {
            proof {
                assert(forall|j: int|
                    0 <= j < i - digits_start ==> 48 <= #[trigger] digits[j] <= 57);
                assert(all_digits(digits) ==> dec_val(digits) > 0x8000_0000) by {
                    if all_digits(digits) {
                        assert(b@.subrange(digits_start as int, i as int) =~= digits.take(
                            i - digits_start,
                        ));
                        lemma_dec_val_prefix(digits, i - digits_start);
                    }
                }
            }
            return None;
        }
    }
    proof {
        assert(b@.subrange(digits_start as int, b@.len() as int) =~= digits);
        assert(forall|j: int| 0 <= j < digits.len() ==> 48 <= #[trigger] digits[j] <= 57);
        assert(all_digits(digits));
    }
    if i == digits_start {
        // A bare sign with no digits.
        return None;
    }
    if neg {
        if acc == 0x8000_0000 {
            Some(i32::MIN)
        } else {
            Some(-((acc as u32) as i32))
        }
    } else {
        if acc > 0x7FFF_FFFF {
            None
        } else {
            Some(acc as i32)
        }
    }
}

/// The value a signed decimal run denotes, if it is well formed and
/// fits in 32 bits.
pub open spec fn spec_parse_i32(b: Seq<u8>) -> Option<i32> {
    let (neg, digits) = if b.len() > 0 && b[0] == 45 {
        (true, b.skip(1))
    } else if b.len() > 0 && b[0] == 43 {
        (false, b.skip(1))
    } else {
        (false, b)
    };
    if b.len() > 0 && digits.len() > 0 && all_digits(digits) {
        let v = dec_val(digits) as int;
        let signed = if neg {
            -v
        } else {
            v
        };
        if i32::MIN <= signed <= i32::MAX {
            Some(signed as i32)
        } else {
            None
        }
    } else {
        None
    }
}

} // verus!
