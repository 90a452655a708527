//! Wrap-safe 32-bit sequence-number arithmetic.
//!
//! Sequence numbers live in a 32-bit modular space.  Two numbers are compared
//! through their wrapped difference interpreted as a signed 32-bit value: a
//! negative difference means the first precedes the second.  This keeps the
//! ordering correct across counter wraparound as long as the in-flight window
//! stays far below 2^31.

use vstd::prelude::*;

verus! {

/// One past the largest 32-bit value; the modulus of the sequence space.
pub open spec fn seq_modulus() -> int {
    0x1_0000_0000
}

/// The wrapped (unsigned) difference `a - b` in the 32-bit modular space.
pub open spec fn wrap_diff(a: u32, b: u32) -> int {
    (a - b) % seq_modulus()
}

/// The signed wrap-safe difference `a - b`: the wrapped difference folded
/// into the range `[-2^31, 2^31)`.
pub open spec fn seq_diff(a: u32, b: u32) -> int {
    if wrap_diff(a, b) >= 0x8000_0000 {
        wrap_diff(a, b) - seq_modulus()
    } else {
        wrap_diff(a, b)
    }
}

/// `a` strictly precedes `b` in the sequence space.
pub open spec fn seq_below(a: u32, b: u32) -> bool {
    seq_diff(a, b) < 0
}

/// The successor of `a` in the sequence space.
pub open spec fn seq_next(a: u32) -> u32 {
    if a == u32::MAX {
        0
    } else {
        (a + 1) as u32
    }
}

/// The wrapped difference is what `wrapping_sub` computes.
proof fn lemma_wrap_diff_is_wrapping_sub(a: u32, b: u32)
    ensures
        wrap_diff(a, b) == if a >= b {
            a - b
        } else {
            a - b + seq_modulus()
        },
{
    if a >= b {
        assert((a - b) % seq_modulus() == a - b) by {
            vstd::arithmetic::div_mod::lemma_small_mod((a - b) as nat, seq_modulus() as nat);
        }
    } else {
        assert((a - b) % seq_modulus() == (a - b + seq_modulus()) % seq_modulus()) by {
            vstd::arithmetic::div_mod::lemma_mod_add_multiples_vanish(a - b, seq_modulus());
        }
        assert((a - b + seq_modulus()) % seq_modulus() == a - b + seq_modulus()) by {
            vstd::arithmetic::div_mod::lemma_small_mod((a - b + seq_modulus()) as nat,
                seq_modulus() as nat);
        }
    }
}

/// Wrapped difference of two sequence numbers, as the executable code
/// computes it.
pub fn wrapped_sub(a: u32, b: u32) -> (r: u32)
    ensures
        r == wrap_diff(a, b),
{
    proof {
        lemma_wrap_diff_is_wrapping_sub(a, b);
    }
    a.wrapping_sub(b)
}

/// Decides whether `a` strictly precedes `b`, wrap-safely.
pub fn is_seq_below(a: u32, b: u32) -> (r: bool)
    ensures
        r == seq_below(a, b),
{
    wrapped_sub(a, b) >= 0x8000_0000
}

/// The successor of `a`, wrapping at the top of the space.
pub fn next_in_space(a: u32) -> (r: u32)
    ensures
        r == seq_next(a),
{
    a.wrapping_add(1)
}

/// `a` advanced by `k` steps in the sequence space.
pub open spec fn wrap_add(a: u32, k: int) -> u32 {
    ((a + k) % seq_modulus()) as u32
}

/// Advancing by zero steps is the identity.
pub proof fn lemma_wrap_add_zero(a: u32)
    ensures
        wrap_add(a, 0) == a,
{
    vstd::arithmetic::div_mod::lemma_small_mod(a as nat, seq_modulus() as nat);
}

/// One more step lands on the successor.
pub proof fn lemma_wrap_add_step(a: u32, k: int)
    requires
        0 <= k,
    ensures
        wrap_add(a, k + 1) == seq_next(wrap_add(a, k)),
{
    let m = seq_modulus();
    let x = (a + k) % m;
    vstd::arithmetic::div_mod::lemma_mod_bound(a + k, m);
    vstd::arithmetic::div_mod::lemma_add_mod_noop(a + k, 1, m);
    vstd::arithmetic::div_mod::lemma_small_mod(1nat, m as nat);
    if x == m - 1 {
        vstd::arithmetic::div_mod::lemma_mod_self_0(m);
        assert((x + 1) % m == 0) by {
            vstd::arithmetic::div_mod::lemma_small_mod(0nat, m as nat);
            assert((x + 1) % m == m % m);
        }
    } else {
        vstd::arithmetic::div_mod::lemma_small_mod((x + 1) as nat, m as nat);
    }
}

/// Starting one step later advances one step further.
pub proof fn lemma_wrap_add_chain(a: u32, k: int)
    requires
        0 <= k,
    ensures
        wrap_add(seq_next(a), k) == wrap_add(a, k + 1),
{
    let m = seq_modulus();
    if a == u32::MAX {
        vstd::arithmetic::div_mod::lemma_mod_add_multiples_vanish(k, m);
        assert((a + (k + 1)) == m + k);
    }
}

/// A small advance is seen as a non-negative signed difference of the same
/// size.
pub proof fn lemma_wrap_add_diff(a: u32, k: int)
    requires
        0 <= k < 0x8000_0000,
    ensures
        seq_diff(wrap_add(a, k), a) == k,
{
    let m = seq_modulus();
    let x = ((a + k) % m) as u32;
    vstd::arithmetic::div_mod::lemma_mod_bound(a + k, m);
    vstd::arithmetic::div_mod::lemma_fundamental_div_mod(a + k, m);
    let q = (a + k) / m;
    assert(x == a + k - m * q);
    assert(wrap_diff(x, a) == (k - m * q) % m);
    assert((k - m * q) % m == k % m) by {
        vstd::arithmetic::div_mod::lemma_mod_multiples_vanish(-q, k, m);
    }
    vstd::arithmetic::div_mod::lemma_small_mod(k as nat, m as nat);
}

/// The signed difference is zero exactly for equal numbers.
pub proof fn lemma_seq_diff_zero(a: u32, b: u32)
    ensures
        (seq_diff(a, b) == 0) <==> (a == b),
{
    lemma_wrap_diff_is_wrapping_sub(a, b);
}

/// A strictly positive signed difference flips into a strictly negative one:
/// when `b` is seen behind `a`, `a` is seen ahead of `b`.
pub proof fn lemma_seq_below_flip(a: u32, b: u32)
    requires
        seq_diff(a, b) > 0,
    ensures
        seq_below(b, a),
        a != b,
{
    lemma_wrap_diff_is_wrapping_sub(a, b);
    lemma_wrap_diff_is_wrapping_sub(b, a);
}

/// A number never precedes itself.
pub proof fn lemma_seq_diff_self(a: u32)
    ensures
        seq_diff(a, a) == 0,
{
    vstd::arithmetic::div_mod::lemma_small_mod(0, seq_modulus() as nat);
}

/// A number strictly precedes its successor.
pub proof fn lemma_seq_below_next(a: u32)
    ensures
        seq_below(a, seq_next(a)),
{
    if a == u32::MAX {
        assert(wrap_diff(a, 0) == u32::MAX) by {
            vstd::arithmetic::div_mod::lemma_small_mod(u32::MAX as nat, seq_modulus() as nat);
        }
    } else {
        lemma_wrap_diff_is_wrapping_sub(a, (a + 1) as u32);
    }
}

} // verus!
