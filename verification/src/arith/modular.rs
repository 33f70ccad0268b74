//! Facts about arithmetic modulo `m` shared by the modular ring types.
use vstd::arithmetic::div_mod::*;
use vstd::arithmetic::mul::*;
use vstd::arithmetic::power2::*;
use vstd::prelude::*;

verus! {

/// `2^64` as a natural number.
pub open spec fn pow2_64() -> nat {
    0x1_0000_0000_0000_0000
}

/// The ring axioms of `Z_m` on canonical representatives `x, y, z < m`.
pub proof fn lemma_mod_ring_laws(x: int, y: int, z: int, m: int)
    requires
        m > 1,
        0 <= x < m,
        0 <= y < m,
        0 <= z < m,
    ensures
        (x + y) % m == (y + x) % m,
        ((x + y) % m + z) % m == (x + (y + z) % m) % m,
        (x + 0) % m == x,
        (x + (m - x) % m) % m == 0,
        (x - y) % m == (x + (m - y) % m) % m,
        (x * y) % m == (y * x) % m,
        ((x * y) % m * z) % m == (x * ((y * z) % m)) % m,
        (x * 1) % m == x,
        (x * 0) % m == 0,
        (x * ((y + z) % m)) % m == ((x * y) % m + (x * z) % m) % m,
        0 <= (x + y) % m < m,
        0 <= (x - y) % m < m,
        0 <= (x * y) % m < m,
        0 <= (m - x) % m < m,
        1int % m == 1,
        0int % m == 0,
{
    lemma_small_mod(x as nat, m as nat);
    lemma_small_mod(1, m as nat);
    lemma_small_mod(0, m as nat);
    lemma_mod_bound(x + y, m);
    lemma_mod_bound(x - y, m);
    lemma_mod_bound(x * y, m);
    lemma_mod_bound(m - x, m);
    // associativity of +
    lemma_add_mod_noop(x + y, z, m);
    lemma_add_mod_noop(x, y + z, m);
    lemma_mod_twice(x + y, m);
    lemma_mod_twice(y + z, m);
    lemma_mod_bound(z, m);
    assert(((x + y) % m + z) % m == (x + y + z) % m) by {
        lemma_add_mod_noop(x + y, z, m);
        lemma_small_mod(z as nat, m as nat);
    }
    assert((x + (y + z) % m) % m == (x + y + z) % m) by {
        lemma_add_mod_noop_right(x, y + z, m);
    }
    // additive inverse
    assert((x + (m - x) % m) % m == 0) by {
        lemma_add_mod_noop_right(x, m - x, m);
        lemma_mod_self_0(m);
    }
    // subtraction
    assert((x - y) % m == (x + (m - y) % m) % m) by {
        lemma_add_mod_noop_right(x, m - y, m);
        lemma_mod_add_multiples_vanish(x - y, m);
    }
    // multiplication
    lemma_mul_is_commutative(x, y);
    assert(((x * y) % m * z) % m == (x * ((y * z) % m)) % m) by {
        lemma_mul_mod_noop_left(x * y, z, m);
        lemma_mul_mod_noop_right(x, y * z, m);
        lemma_mul_is_associative(x, y, z);
    }
    assert((x * ((y + z) % m)) % m == ((x * y) % m + (x * z) % m) % m) by {
        lemma_mul_mod_noop_right(x, y + z, m);
        lemma_mul_is_distributive_add(x, y, z);
        lemma_add_mod_noop(x * y, x * z, m);
    }
}

/// Reducing modulo `2^64` first does not change a residue modulo `2^k`, `k <= 64`.
pub proof fn lemma_mod_pow2_64_then_pow2(x: int, k: nat)
    requires
        k <= 64,
    ensures
        (x % (pow2_64() as int)) % (pow2(k) as int) == x % (pow2(k) as int),
{
    lemma_pow2_pos(k);
    lemma_pow2_pos((64 - k) as nat);
    lemma_pow2_adds(k, (64 - k) as nat);
    lemma2_to64();
    lemma_pow2_64_value();
    lemma_mod_mod(x, pow2(k) as int, pow2((64 - k) as nat) as int);
}

/// `pow2(64)` is `2^64`.
pub proof fn lemma_pow2_64_value()
    ensures
        pow2(64) == pow2_64(),
{
    lemma2_to64();
    lemma2_to64_rest();
}

/// One conditional subtraction reduces a sum of two residues.
pub proof fn lemma_mod_add_once(s: int, r: int)
    requires
        r > 0,
        0 <= s < 2 * r,
    ensures
        s % r == if s >= r { s - r } else { s },
{
    if s >= r {
        lemma_fundamental_div_mod_converse(s, r, 1, s - r);
    } else {
        lemma_fundamental_div_mod_converse(s, r, 0, s);
    }
}

/// One conditional addition reduces a difference of two residues.
pub proof fn lemma_mod_sub_once(d: int, r: int)
    requires
        r > 0,
        -r <= d < r,
    ensures
        d % r == if d < 0 { d + r } else { d },
{
    if d < 0 {
        lemma_fundamental_div_mod_converse(d, r, -1, d + r);
    } else {
        lemma_fundamental_div_mod_converse(d, r, 0, d);
    }
}

/// The powers of two that bound the limb and wide word types.
pub proof fn lemma_limb_pow2_values()
    ensures
        pow2(8) == 0x100,
        pow2(16) == 0x1_0000,
        pow2(32) == 0x1_0000_0000,
        pow2(64) == 0x1_0000_0000_0000_0000,
        pow2(128) == 0x1_0000_0000_0000_0000_0000_0000_0000_0000int,
{
    lemma2_to64();
    lemma2_to64_rest();
    lemma_pow2_adds(64, 64);
}

/// Widening a `u64` into a wide word keeps it modulo the wide range.
pub proof fn lemma_wide_from_u64_u16(v: u64)
    ensures
        (v as u16) as nat == (v as nat) % 0x1_0000,
{
    assert((v as u16) as nat == (v as nat) % 0x1_0000) by (bit_vector);
}

/// Widening a `u64` into a wide word keeps it modulo the wide range.
pub proof fn lemma_wide_from_u64_u32(v: u64)
    ensures
        (v as u32) as nat == (v as nat) % 0x1_0000_0000,
{
    assert((v as u32) as nat == (v as nat) % 0x1_0000_0000) by (bit_vector);
}

/// Widening a `u64` into a wide word keeps it modulo the wide range.
pub proof fn lemma_wide_from_u64_u64(v: u64)
    ensures
        (v as u64) as nat == (v as nat) % 0x1_0000_0000_0000_0000,
{
    lemma_small_mod(v as nat, 0x1_0000_0000_0000_0000);
}

/// Widening a `u64` into a wide word keeps it modulo the wide range.
pub proof fn lemma_wide_from_u64_u128(v: u64)
    ensures
        (v as u128) as nat == (v as nat) % ((0x1_0000_0000_0000_0000_0000_0000_0000_0000int) as nat),
{
    lemma_small_mod(v as nat, (0x1_0000_0000_0000_0000_0000_0000_0000_0000int) as nat);
}

} // verus!
