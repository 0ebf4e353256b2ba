//! Decimal and hexadecimal digit strings over ASCII bytes.
//!
//! `dec_digits` / `hex_digits` give the canonical (shortest) spelling of a
//! number, `dec_val` / `hex_val` read a spelling back, and the lemmas here
//! relate the two. The address codec is built on these.

use vstd::prelude::*;

verus! {

/// ASCII '0'.
pub const DIGIT_ZERO: u8 = 0x30;

/// The ASCII byte for the low decimal digit of `n`.
pub open spec fn dec_digit(n: nat) -> u8 {
    (0x30 + n % 10) as u8
}

/// The canonical decimal spelling of `n`: shortest form, no leading zeros.
pub open spec fn dec_digits(n: nat) -> Seq<u8>
    decreases n,
{
    if n < 10 {
        seq![dec_digit(n)]
    } else {
        dec_digits(n / 10).push(dec_digit(n))
    }
}

/// The ASCII byte (lowercase) for the low hexadecimal digit of `n`.
pub open spec fn hex_digit(n: nat) -> u8 {
    if n % 16 < 10 {
        (0x30 + n % 16) as u8
    } else {
        (0x57 + n % 16) as u8
    }
}

/// The canonical lowercase hexadecimal spelling of `n`.
pub open spec fn hex_digits(n: nat) -> Seq<u8>
    decreases n,
{
    if n < 16 {
        seq![hex_digit(n)]
    } else {
        hex_digits(n / 16).push(hex_digit(n))
    }
}

/// `b` is an ASCII decimal digit.
pub open spec fn is_dec_digit(b: u8) -> bool {
    0x30 <= b <= 0x39
}

/// `b` is an ASCII hexadecimal digit, either case.
pub open spec fn is_hex_digit(b: u8) -> bool {
    is_dec_digit(b) || (0x41 <= b <= 0x46) || (0x61 <= b <= 0x66)
}

/// The value of a decimal digit byte.
pub open spec fn dec_digit_val(b: u8) -> nat {
    (b - 0x30) as nat
}

/// The value of a hexadecimal digit byte, either case.
pub open spec fn hex_digit_val(b: u8) -> nat {
    if is_dec_digit(b) {
        (b - 0x30) as nat
    } else if 0x41 <= b <= 0x46 {
        (b - 0x37) as nat
    } else {
        (b - 0x57) as nat
    }
}

pub open spec fn all_dec_digits(t: Seq<u8>) -> bool {
    forall|i: int| 0 <= i < t.len() ==> is_dec_digit(#[trigger] t[i])
}

pub open spec fn all_hex_digits(t: Seq<u8>) -> bool {
    forall|i: int| 0 <= i < t.len() ==> is_hex_digit(#[trigger] t[i])
}

/// The number a string of decimal digit bytes denotes.
pub open spec fn dec_val(t: Seq<u8>) -> nat
    decreases t.len(),
{
    if t.len() == 0 {
        0
    } else {
        dec_val(t.drop_last()) * 10 + dec_digit_val(t.last())
    }
}

/// The number a string of hexadecimal digit bytes denotes.
pub open spec fn hex_val(t: Seq<u8>) -> nat
    decreases t.len(),
{
    if t.len() == 0 {
        0
    } else {
        hex_val(t.drop_last()) * 16 + hex_digit_val(t.last())
    }
}

pub open spec fn pow10(k: nat) -> nat
    decreases k,
{
    if k == 0 {
        1
    } else {
        10 * pow10((k - 1) as nat)
    }
}

pub open spec fn pow16(k: nat) -> nat
    decreases k,
{
    if k == 0 {
        1
    } else {
        16 * pow16((k - 1) as nat)
    }
}

/// Every byte of a canonical decimal spelling is a decimal digit.
pub proof fn lemma_dec_digits_are_digits(n: nat)
    ensures
        all_dec_digits(dec_digits(n)),
    decreases n,
{
    if n >= 10 {
        lemma_dec_digits_are_digits(n / 10);
        assert forall|i: int| 0 <= i < dec_digits(n).len() implies is_dec_digit(
            #[trigger] dec_digits(n)[i],
        ) by {
            if i < dec_digits(n / 10).len() {
                assert(dec_digits(n)[i] == dec_digits(n / 10)[i]);
            }
        }
    }
}

/// Every byte of a canonical hexadecimal spelling is a hexadecimal digit.
pub proof fn lemma_hex_digits_are_digits(n: nat)
    ensures
        all_hex_digits(hex_digits(n)),
    decreases n,
{
    if n >= 16 {
        lemma_hex_digits_are_digits(n / 16);
        assert forall|i: int| 0 <= i < hex_digits(n).len() implies is_hex_digit(
            #[trigger] hex_digits(n)[i],
        ) by {
            if i < hex_digits(n / 16).len() {
                assert(hex_digits(n)[i] == hex_digits(n / 16)[i]);
            }
        }
    }
}

/// A canonical decimal spelling never starts with '0' unless it denotes 0.
pub proof fn lemma_dec_digits_first(n: nat)
    ensures
        dec_digits(n).len() >= 1,
        n >= 1 ==> dec_digits(n)[0] != DIGIT_ZERO,
    decreases n,
{
    if n >= 10 {
        lemma_dec_digits_first(n / 10);
        assert(dec_digits(n)[0] == dec_digits(n / 10)[0]);
    }
}

/// Reading back a canonical decimal spelling gives the number.
pub proof fn lemma_dec_val_of_digits(n: nat)
    ensures
        dec_val(dec_digits(n)) == n,
    decreases n,
{
    if n < 10 {
        assert(dec_digits(n).drop_last() =~= Seq::<u8>::empty());
        assert(dec_digits(n).last() == dec_digit(n));
        assert(dec_val(Seq::<u8>::empty()) == 0);
        assert(dec_val(dec_digits(n)) == dec_digit_val(dec_digit(n)));
    } else {
        lemma_dec_val_of_digits(n / 10);
        assert(dec_digits(n).drop_last() =~= dec_digits(n / 10));
        assert(dec_digits(n).last() == dec_digit(n));
        assert(dec_digit_val(dec_digit(n)) == n % 10);
        vstd::arithmetic::div_mod::lemma_fundamental_div_mod(n as int, 10);
        assert(dec_val(dec_digits(n)) == (n / 10) * 10 + n % 10);
    }
}

/// Reading back a canonical hexadecimal spelling gives the number.
pub proof fn lemma_hex_val_of_digits(n: nat)
    ensures
        hex_val(hex_digits(n)) == n,
    decreases n,
{
    if n < 16 {
        assert(hex_digits(n).drop_last() =~= Seq::<u8>::empty());
        assert(hex_digits(n).last() == hex_digit(n));
        assert(hex_val(Seq::<u8>::empty()) == 0);
        assert(hex_val(hex_digits(n)) == hex_digit_val(hex_digit(n)));
    } else {
        lemma_hex_val_of_digits(n / 16);
        assert(hex_digits(n).drop_last() =~= hex_digits(n / 16));
        assert(hex_digits(n).last() == hex_digit(n));
        assert(hex_digit_val(hex_digit(n)) == n % 16);
        vstd::arithmetic::div_mod::lemma_fundamental_div_mod(n as int, 16);
        assert(hex_val(hex_digits(n)) == (n / 16) * 16 + n % 16);
    }
}

/// A string of `k` decimal digits denotes a number below `pow10(k)`.
pub proof fn lemma_dec_val_upper(t: Seq<u8>)
    requires
        all_dec_digits(t),
    ensures
        dec_val(t) < pow10(t.len()),
    decreases t.len(),
{
    if t.len() > 0 {
        assert(all_dec_digits(t.drop_last())) by {
            assert(forall|i: int|
                0 <= i < t.len() - 1 ==> #[trigger] t.drop_last()[i] == t[i]);
        }
        lemma_dec_val_upper(t.drop_last());
        assert(is_dec_digit(t.last()));
        assert(dec_digit_val(t.last()) <= 9);
    }
}

/// A string of `k` hexadecimal digits denotes a number below `pow16(k)`.
pub proof fn lemma_hex_val_upper(t: Seq<u8>)
    requires
        all_hex_digits(t),
    ensures
        hex_val(t) < pow16(t.len()),
    decreases t.len(),
{
    if t.len() > 0 {
        assert(all_hex_digits(t.drop_last())) by {
            assert(forall|i: int|
                0 <= i < t.len() - 1 ==> #[trigger] t.drop_last()[i] == t[i]);
        }
        lemma_hex_val_upper(t.drop_last());
        assert(is_hex_digit(t.last()));
        assert(hex_digit_val(t.last()) <= 15);
    }
}

/// The canonical decimal spelling of `n < pow10(k)` takes at most `k` digits
/// (for `k >= 1`).
pub proof fn lemma_dec_digits_len(n: nat, k: nat)
    requires
        k >= 1,
        n < pow10(k),
    ensures
        dec_digits(n).len() <= k,
    decreases k,
{
    if n >= 10 {
        assert(pow10(k) == 10 * pow10((k - 1) as nat));
        lemma_dec_digits_len(n / 10, (k - 1) as nat);
    }
}

/// The canonical hexadecimal spelling of `n < pow16(k)` takes at most `k`
/// digits (for `k >= 1`).
pub proof fn lemma_hex_digits_len(n: nat, k: nat)
    requires
        k >= 1,
        n < pow16(k),
    ensures
        hex_digits(n).len() <= k,
    decreases k,
{
    if n >= 16 {
        assert(pow16(k) == 16 * pow16((k - 1) as nat));
        lemma_hex_digits_len(n / 16, (k - 1) as nat);
    }
}

/// The canonical decimal spelling of `n`, as bytes.
pub fn format_dec_u64(n: u64) -> (r: Vec<u8>)
    ensures
        r@ == dec_digits(n as nat),
{
    let mut out: Vec<u8> = Vec::new();
    let mut cur: u64 = n;
    loop
        invariant
            dec_digits(n as nat) == dec_digits(cur as nat) + out@,
        decreases cur,
    {
        if cur < 10 {
            out.insert(0, (0x30 + cur) as u8);
            assert(dec_digits(cur as nat) =~= seq![dec_digit(cur as nat)]);
            assert(dec_digits(n as nat) =~= out@);
            return out;
        }
        let ghost prev = cur as nat;
        let ghost prev_out = out@;
        out.insert(0, (0x30 + cur % 10) as u8);
        cur = cur / 10;
        proof {
            assert(dec_digits(prev) =~= dec_digits(prev / 10) + seq![dec_digit(prev)]);
            assert(dec_digits(cur as nat) + out@ =~= dec_digits(prev) + prev_out);
        }
    }
}

/// The canonical lowercase hexadecimal spelling of `n`, as bytes.
pub fn format_hex_u16(n: u16) -> (r: Vec<u8>)
    ensures
        r@ == hex_digits(n as nat),
{
    let mut out: Vec<u8> = Vec::new();
    let mut cur: u16 = n;
    loop
        invariant
            hex_digits(n as nat) == hex_digits(cur as nat) + out@,
        decreases cur,
    {
        if cur < 16 {
            let low = cur as u8;
            let d: u8 = if low < 10 {
                0x30 + low
            } else {
                0x57 + low
            };
            out.insert(0, d);
            assert(hex_digits(cur as nat) =~= seq![hex_digit(cur as nat)]);
            assert(hex_digits(n as nat) =~= out@);
            return out;
        }
        let ghost prev = cur as nat;
        let ghost prev_out = out@;
        let low = (cur % 16) as u8;
        let d: u8 = if low < 10 {
            0x30 + low
        } else {
            0x57 + low
        };
        out.insert(0, d);
        cur = cur / 16;
        proof {
            assert(hex_digits(prev) =~= hex_digits(prev / 16) + seq![hex_digit(prev)]);
            assert(hex_digits(cur as nat) + out@ =~= hex_digits(prev) + prev_out);
        }
    }
}

} // verus!
