//! The admission rule of the cascade: whether enough of the points that a
//! coarser bucket stands for are there.
//!
//! The x-files-factor is an IEEE-754 single. The rule compares the exact
//! fraction `kept / candidates` with the exact number that the factor's bits
//! spell, in integers.

use vstd::prelude::*;

verus! {

/// Two to the power `n`.
pub open spec fn two_to(n: nat) -> nat
    decreases n,
{
    if n == 0 {
        1
    } else {
        2 * two_to((n - 1) as nat)
    }
}

/// The sign bit of a single.
pub open spec fn factor_is_negative(bits: u32) -> bool {
    bits >= 0x8000_0000
}

/// The eight exponent bits of a single.
pub open spec fn factor_exponent(bits: u32) -> nat {
    ((bits / 0x80_0000) % 256) as nat
}

/// The twenty-three fraction bits of a single.
pub open spec fn factor_fraction(bits: u32) -> nat {
    (bits % 0x80_0000) as nat
}

/// Whether `kept` out of `candidates` points are enough for the factor whose
/// bits are `bits`: whether `kept / candidates >= factor`.
///
/// No candidates admit nothing. A factor that is not a number admits
/// nothing, nor does plus infinity; a negative factor, minus zero and minus
/// infinity admit everything. A subnormal factor is `fraction * 2^-149`,
/// any other is `(2^23 + fraction) * 2^(exponent - 150)`.
pub open spec fn admits(kept: nat, candidates: nat, bits: u32) -> bool {
    let e = factor_exponent(bits);
    let f = factor_fraction(bits);
    if candidates == 0 {
        false
    } else if e == 255 {
        f == 0 && factor_is_negative(bits)
    } else if factor_is_negative(bits) {
        true
    } else if e == 0 {
        kept * two_to(149) >= f * candidates
    } else if e <= 150 {
        kept * two_to((150 - e) as nat) >= (0x80_0000 + f) * candidates
    } else {
        kept >= (0x80_0000 + f) * two_to((e - 150) as nat) * candidates
    }
}

/// Powers of two grow with the exponent.
pub proof fn lemma_two_to_monotone(a: nat, b: nat)
    requires
        a <= b,
    ensures
        two_to(a) <= two_to(b),
        two_to(a) >= 1,
    decreases b,
{
    if a < b {
        lemma_two_to_monotone(a, (b - 1) as nat);
    } else if a > 0 {
        lemma_two_to_monotone((a - 1) as nat, (a - 1) as nat);
    }
}

/// The powers of two that the rule compares with.
pub proof fn lemma_two_to_values()
    ensures
        two_to(9) == 0x200,
        two_to(56) == 0x100_0000_0000_0000,
        two_to(64) == 0x1_0000_0000_0000_0000,
{
    reveal_with_fuel(two_to, 10);
    assert(two_to(9) == 0x200);
    assert(two_to(18) == 0x4_0000);
    assert(two_to(27) == 0x800_0000);
    assert(two_to(36) == 0x10_0000_0000);
    assert(two_to(45) == 0x2000_0000_0000);
    assert(two_to(54) == 0x40_0000_0000_0000);
    assert(two_to(56) == 0x100_0000_0000_0000);
    assert(two_to(63) == 0x8000_0000_0000_0000);
}

/// Two to the power `n`, for `n` up to 64.
fn power_of_two(n: u32) -> (p: u128)
    requires
        n <= 64,
    ensures
        p == two_to(n as nat),
{
    let mut p: u128 = 1;
    let mut i: u32 = 0;
    while i < n
        invariant
            i <= n <= 64,
            p == two_to(i as nat),
        decreases n - i,
    {
        proof {
            lemma_two_to_monotone(i as nat, 63);
            lemma_two_to_values();
            reveal_with_fuel(two_to, 2);
        }
        p = p * 2;
        i = i + 1;
    }
    p
}

/// Decides the admission rule: see [`admits`].
pub fn admits_points(kept: u32, candidates: u32, x_files_factor: u32) -> (ok: bool)
    ensures
        ok == admits(kept as nat, candidates as nat, x_files_factor),
{
    if candidates == 0 {
        return false;
    }
    let negative: bool = x_files_factor >= 0x8000_0000;
    let e: u32 = (x_files_factor / 0x80_0000) % 256;
    let f: u64 = (x_files_factor % 0x80_0000) as u64;
    if e == 255 {
        return f == 0 && negative;
    }
    if negative {
        return true;
    }
    let k: u128 = kept as u128;
    let c: u128 = candidates as u128;
    proof {
        lemma_two_to_values();
    }
    if e > 150 {
        let up: u32 = e - 150;
        let m: u128 = (0x80_0000 + f) as u128;
        if up >= 9 {
            proof {
                lemma_two_to_monotone(9, up as nat);
                let t = two_to(up as nat) as int;
                assert(m * t * c >= 0x80_0000 * 0x200) by (nonlinear_arith)
                    requires
                        m >= 0x80_0000,
                        t >= 0x200,
                        c >= 1,
                ;
            }
            return false;
        }
        let scale: u128 = power_of_two(up);
        proof {
            lemma_two_to_monotone(up as nat, 9);
            assert(m * scale <= 0x100_0000 * 0x200) by (nonlinear_arith)
                requires
                    m <= 0x100_0000,
                    scale <= 0x200,
            ;
            assert(m * scale * c <= 0x100_0000 * 0x200 * 0x1_0000_0000) by (nonlinear_arith)
                requires
                    m * scale <= 0x100_0000 * 0x200,
                    c <= 0x1_0000_0000,
            ;
        }
        return k >= m * scale * c;
    }
    let m: u128 = if e == 0 {
        f as u128
    } else {
        (0x80_0000 + f) as u128
    };
    let down: u32 = if e == 0 {
        149
    } else {
        150 - e
    };
    assert(m * c <= 0x100_0000 * 0x1_0000_0000) by (nonlinear_arith)
        requires
            m <= 0x100_0000,
            c <= 0x1_0000_0000,
    ;
    let needed: u128 = m * c;
    if kept == 0 {
        proof {
            assert(k * two_to(down as nat) == 0) by (nonlinear_arith)
                requires
                    k == 0,
            ;
        }
        return needed == 0;
    }
    if down >= 56 {
        proof {
            lemma_two_to_monotone(56, down as nat);
            let t = two_to(down as nat) as int;
            assert(k * t >= 0x100_0000_0000_0000) by (nonlinear_arith)
                requires
                    k >= 1,
                    t >= 0x100_0000_0000_0000,
            ;
        }
        return true;
    }
    let scale: u128 = power_of_two(down);
    proof {
        lemma_two_to_monotone(down as nat, 56);
        assert(k * scale <= 0x1_0000_0000 * 0x100_0000_0000_0000) by (nonlinear_arith)
            requires
                k <= 0x1_0000_0000,
                scale <= 0x100_0000_0000_0000,
        ;
    }
    k * scale >= needed
}

} // verus!
