//! Decimal and lowercase hexadecimal renderings of integers, optionally
//! padded with leading zeros, as `format!` writes them with `{}`, `{:0N}`
//! and `{:0Nx}`.
use vstd::arithmetic::div_mod::lemma_div_decreases;
use vstd::prelude::*;
use vstd::string::StringExecFns;

use crate::text::{ascii_chars, ascii_string};

verus! {

/// The ASCII code of digit `d`: `0`-`9`, then `a`-`f` and beyond.
pub open spec fn digit_byte(d: nat) -> u8 {
    if d < 10 {
        (48 + d) as u8
    } else {
        (87 + d) as u8
    }
}

/// The digits of `n` in base `base`, most significant first, without
/// leading zeros (`0` is the single digit `0`).
pub open spec fn digit_bytes(n: nat, base: nat) -> Seq<u8>
    decreases n,
{
    if base < 2 || n < base {
        seq![digit_byte(n)]
    } else {
        proof {
            lemma_div_decreases(n as int, base as int);
        }
        digit_bytes(n / base, base).push(digit_byte(n % base))
    }
}

/// The digits of `n`, with leading zeros added up to `width` characters.
pub open spec fn padded_digit_bytes(n: nat, base: nat, width: nat) -> Seq<u8> {
    let d = digit_bytes(n, base);
    if d.len() < width {
        Seq::new((width - d.len()) as nat, |_i: int| 48u8) + d
    } else {
        d
    }
}

/// The text of `n` in base `base`, zero-padded to `width` characters.
pub open spec fn number_text(n: nat, base: nat, width: nat) -> Seq<char> {
    ascii_chars(padded_digit_bytes(n, base, width))
}

/// `{}` of a non-negative integer.
pub open spec fn decimal(n: nat) -> Seq<char> {
    number_text(n, 10, 0)
}

proof fn lemma_digit_bytes_ascii(n: nat, base: nat)
    requires
        base == 10 || base == 16,
    ensures
        forall|i: int| 0 <= i < digit_bytes(n, base).len() ==> #[trigger] digit_bytes(n, base)[i] < 128,
        digit_bytes(n, base).len() >= 1,
    decreases n,
{
    if n >= base {
        lemma_div_decreases(n as int, base as int);
        lemma_digit_bytes_ascii(n / base, base);
    }
}

proof fn lemma_padded_ascii(n: nat, base: nat, width: nat)
    requires
        base == 10 || base == 16,
    ensures
        forall|i: int|
            0 <= i < padded_digit_bytes(n, base, width).len() ==> #[trigger] padded_digit_bytes(
                n,
                base,
                width,
            )[i] < 128,
{
    lemma_digit_bytes_ascii(n, base);
    let d = digit_bytes(n, base);
    if d.len() < width {
        let p = padded_digit_bytes(n, base, width);
        let z = Seq::new((width - d.len()) as nat, |_i: int| 48u8);
        assert forall|i: int| 0 <= i < p.len() implies #[trigger] p[i] < 128 by {
            if i < z.len() {
                assert(p[i] == z[i]);
            } else {
                assert(p[i] == d[i - z.len()]);
            }
        }
    }
}

/// The ASCII code of digit `d`.
fn digit(d: u64) -> (b: u8)
    requires
        d < 16,
    ensures
        b == digit_byte(d as nat),
{
    if d < 10 {
        48 + d as u8
    } else {
        87 + d as u8
    }
}

/// Appends the digits of `n` in `base`, zero-padded to `width`.
fn push_digits(out: &mut Vec<u8>, n: u64, base: u64, width: u64)
    requires
        base == 10 || base == 16,
    ensures
        final(out)@ == old(out)@ + padded_digit_bytes(n as nat, base as nat, width as nat),
    decreases n,
{
    if n < base {
        let ghost start = out@;
        let mut k: u64 = 1;
        while k < width
            invariant
                1 <= k,
                k <= width || k == 1,
                out@ == start + Seq::new((k - 1) as nat, |_i: int| 48u8),
            decreases width - k,
        {
            out.push(48u8);
            k = k + 1;
            proof {
                assert(out@ =~= start + Seq::new((k - 1) as nat, |_i: int| 48u8));
            }
        }
        out.push(digit(n));
        proof {
            let d = digit_bytes(n as nat, base as nat);
            assert(d =~= seq![digit_byte(n as nat)]);
            if 1 < width {
                assert(out@ =~= start + padded_digit_bytes(n as nat, base as nat, width as nat));
            } else {
                assert(out@ =~= start + padded_digit_bytes(n as nat, base as nat, width as nat));
            }
        }
    } else {
        let ghost start = out@;
        let w = if width > 0 {
            width - 1
        } else {
            0
        };
        proof {
            lemma_div_decreases(n as int, base as int);
        }
        push_digits(out, n / base, base, w);
        out.push(digit(n % base));
        proof {
            let d1 = digit_bytes((n / base) as nat, base as nat);
            let x = digit_byte((n % base) as nat);
            let d = digit_bytes(n as nat, base as nat);
            assert(d == d1.push(x));
            let p1 = padded_digit_bytes((n / base) as nat, base as nat, w as nat);
            if d.len() < width {
                let z = Seq::new((width - d.len()) as nat, |_i: int| 48u8);
                assert(p1 == z + d1);
                assert(z + d =~= (z + d1).push(x));
            } else {
                assert(p1 == d1);
            }
            assert(out@ =~= start + padded_digit_bytes(n as nat, base as nat, width as nat));
        }
    }
}

/// Appends `n` in base 10 or 16, zero-padded to `width` characters.
pub fn push_number(out: &mut String, n: u64, base: u64, width: u64)
    requires
        base == 10 || base == 16,
    ensures
        final(out)@ == old(out)@ + number_text(n as nat, base as nat, width as nat),
{
    let mut bytes: Vec<u8> = Vec::new();
    push_digits(&mut bytes, n, base, width);
    proof {
        assert(bytes@ =~= padded_digit_bytes(n as nat, base as nat, width as nat));
        lemma_padded_ascii(n as nat, base as nat, width as nat);
    }
    let s = ascii_string(bytes);
    out.append(s.as_str());
}

} // verus!
