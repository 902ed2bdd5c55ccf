//! Powers of two, trailing zero bits and bit lengths of constants.
use vstd::prelude::*;

verus! {

/// 2 to the power `k`.
pub open spec fn two_pow(k: nat) -> nat
    decreases k,
{
    if k == 0 {
        1
    } else {
        2 * two_pow((k - 1) as nat)
    }
}

/// The number of trailing zero bits of a positive number (0 for 0).
pub open spec fn tz(v: nat) -> nat
    decreases v,
{
    if v == 0 || v % 2 == 1 {
        0
    } else {
        1 + tz(v / 2)
    }
}

/// A number with all its trailing zero bits removed; 0 stays 0.
pub open spec fn odd_part(v: nat) -> nat
    decreases v,
{
    if v == 0 || v % 2 == 1 {
        v
    } else {
        odd_part(v / 2)
    }
}

/// The number of bits needed to write `v`: 0 for 0, else `k` with `2^(k-1) <= v < 2^k`.
pub open spec fn bit_len(v: nat) -> nat
    decreases v,
{
    if v == 0 {
        0
    } else {
        1 + bit_len(v / 2)
    }
}

/// What `usize::trailing_zeros` gives: the bit width of `usize` for 0.
pub open spec fn trailing_zeros_of(v: usize) -> nat {
    if v == 0 {
        usize::BITS as nat
    } else {
        tz(v as nat)
    }
}

/// A constant is a base of the decomposition when it is 0 or a power of two.
pub open spec fn is_base_const(c: nat) -> bool {
    c == 0 || exists|k: nat| two_pow(k) == c
}

pub proof fn lemma_two_pow_adds(a: nat, b: nat)
    ensures
        two_pow(a + b) == two_pow(a) * two_pow(b),
    decreases a,
{
    if a > 0 {
        let a1 = (a - 1) as nat;
        lemma_two_pow_adds(a1, b);
        assert((a + b - 1) as nat == a1 + b);
        assert(two_pow(a + b) == 2 * two_pow(a1 + b));
        assert(two_pow(a) == 2 * two_pow(a1));
        assert(2 * (two_pow(a1) * two_pow(b)) == (2 * two_pow(a1)) * two_pow(b))
            by (nonlinear_arith);
    } else {
        assert(two_pow(0) == 1);
        assert(two_pow(a + b) == two_pow(b));
    }
}

pub proof fn lemma_two_pow_pos(k: nat)
    ensures
        two_pow(k) >= 1,
    decreases k,
{
    if k > 0 {
        lemma_two_pow_pos((k - 1) as nat);
    }
}

pub proof fn lemma_two_pow_monotone(a: nat, b: nat)
    requires
        a <= b,
    ensures
        two_pow(a) <= two_pow(b),
    decreases b,
{
    if a < b {
        lemma_two_pow_monotone(a, (b - 1) as nat);
        lemma_two_pow_pos((b - 1) as nat);
    }
}

/// `2^64` exceeds every `usize`.
pub proof fn lemma_two_pow_64()
    ensures
        two_pow(64) == 0x1_0000_0000_0000_0000,
        two_pow(64) > usize::MAX,
{
    reveal_with_fuel(two_pow, 65);
}

/// A positive number is its odd part times a power of two.
pub proof fn lemma_odd_part_factor(v: nat)
    requires
        v > 0,
    ensures
        v == odd_part(v) * two_pow(tz(v)),
        odd_part(v) % 2 == 1,
    decreases v,
{
    if v % 2 == 0 {
        lemma_odd_part_factor(v / 2);
        let o = odd_part(v / 2);
        let p = two_pow(tz(v / 2));
        assert(odd_part(v) == o);
        assert(tz(v) == 1 + tz(v / 2));
        assert((tz(v) - 1) as nat == tz(v / 2));
        assert(two_pow(tz(v)) == 2 * p);
        assert(v == 2 * (o * p));
        assert(2 * (o * p) == o * (2 * p)) by (nonlinear_arith);
        assert(v == o * two_pow(tz(v)));
    } else {
        assert(tz(v) == 0);
        assert(two_pow(0) == 1);
        assert(odd_part(v) == v);
        assert(v == v * 1);
    }
}

/// The number of trailing zeros of a `usize` other than 0 is below 64.
pub proof fn lemma_tz_small(v: usize)
    requires
        v > 0,
    ensures
        tz(v as nat) < 64,
        odd_part(v as nat) <= v,
        odd_part(v as nat) > 0,
{
    lemma_odd_part_factor(v as nat);
    let o = odd_part(v as nat);
    let k = tz(v as nat);
    lemma_two_pow_pos(k);
    assert(o * two_pow(k) >= two_pow(k)) by (nonlinear_arith)
        requires
            o >= 1,
    ;
    assert(o * two_pow(k) >= o) by (nonlinear_arith)
        requires
            two_pow(k) >= 1,
    ;
    lemma_two_pow_64();
    if k >= 64 {
        lemma_two_pow_monotone(64, k);
    }
}

/// Doubling a positive number keeps its odd part.
pub proof fn lemma_odd_part_double(v: nat)
    ensures
        odd_part(2 * v) == odd_part(v),
        v > 0 ==> tz(2 * v) == tz(v) + 1,
{
    if v > 0 {
        assert((2 * v) % 2 == 0);
        assert((2 * v) / 2 == v);
    }
}

/// Bounds that define the bit length.
pub proof fn lemma_bit_len_bounds(v: nat)
    requires
        v > 0,
    ensures
        bit_len(v) >= 1,
        two_pow((bit_len(v) - 1) as nat) <= v,
        v < two_pow(bit_len(v)),
    decreases v,
{
    if v > 1 {
        lemma_bit_len_bounds(v / 2);
        let k = bit_len(v / 2);
        assert(bit_len(v) == 1 + k);
        assert((bit_len(v) - 1) as nat == k);
        assert(two_pow(k + 1) == 2 * two_pow(k));
        assert(two_pow(k) == 2 * two_pow((k - 1) as nat));
    } else {
        assert(bit_len(0) == 0);
        assert(bit_len(1) == 1);
        assert(two_pow(0) == 1);
        assert(two_pow(1) == 2 * two_pow(0));
    }
}

/// A `usize` has at most 64 bits.
pub proof fn lemma_bit_len_small(v: usize)
    ensures
        bit_len(v as nat) <= 64,
{
    if v > 0 {
        lemma_bit_len_bounds(v as nat);
        lemma_two_pow_64();
        if bit_len(v as nat) > 64 {
            lemma_two_pow_monotone(64, (bit_len(v as nat) - 1) as nat);
        }
    }
}

/// A positive number is a power of two exactly when its odd part is 1.
pub proof fn lemma_base_iff_odd_part_one(c: nat)
    requires
        c > 0,
    ensures
        is_base_const(c) <==> odd_part(c) == 1,
{
    lemma_odd_part_factor(c);
    if odd_part(c) == 1 {
        assert(two_pow(tz(c)) == c);
    }
    if exists|k: nat| two_pow(k) == c {
        let k = choose|k: nat| two_pow(k) == c;
        lemma_odd_part_two_pow(k);
    }
}

pub proof fn lemma_odd_part_two_pow(k: nat)
    ensures
        odd_part(two_pow(k)) == 1,
        tz(two_pow(k)) == k,
    decreases k,
{
    lemma_two_pow_pos(k);
    if k > 0 {
        lemma_odd_part_two_pow((k - 1) as nat);
        lemma_two_pow_pos((k - 1) as nat);
        lemma_odd_part_double(two_pow((k - 1) as nat));
    }
}

/// Trailing zero bits of `v`; the bit width of `usize` for 0 (as `usize::trailing_zeros`).
pub fn trailing_zeros(v: usize) -> (r: u32)
    ensures
        r == trailing_zeros_of(v),
        v > 0 ==> r < 64,
{
    if v == 0 {
        return usize::BITS;
    }
    proof {
        lemma_tz_small(v);
    }
    let mut x = v;
    let mut k: u32 = 0;
    while x % 2 == 0
        invariant
            x > 0,
            tz(v as nat) == k + tz(x as nat),
            tz(v as nat) < 64,
        decreases x,
    {
        x = x / 2;
        k = k + 1;
    }
    k
}

/// `v` with its trailing zero bits shifted out (`v >> v.trailing_zeros()`), 0 for 0.
pub fn odd_part_of(v: usize) -> (r: usize)
    ensures
        r == odd_part(v as nat),
        r <= v,
        v > 0 ==> r % 2 == 1,
{
    if v == 0 {
        return 0;
    }
    proof {
        lemma_odd_part_factor(v as nat);
    }
    let mut x = v;
    while x % 2 == 0
        invariant
            x > 0,
            x <= v,
            odd_part(v as nat) == odd_part(x as nat),
        decreases x,
    {
        x = x / 2;
    }
    x
}

/// Whether `c` is 0 or a power of two: such a constant needs no adder.
pub fn is_base(c: usize) -> (r: bool)
    ensures
        r == is_base_const(c as nat),
{
    if c == 0 {
        return true;
    }
    proof {
        lemma_base_iff_odd_part_one(c as nat);
    }
    odd_part_of(c) == 1
}

/// Bit length of a constant: smallest `k` such that `2^k > c`.
pub fn bit_length(c: usize) -> (r: i32)
    ensures
        r == bit_len(c as nat),
        0 <= r <= 64,
        c > 0 ==> two_pow((r - 1) as nat) <= c < two_pow(r as nat),
{
    proof {
        lemma_bit_len_small(c);
        if c > 0 {
            lemma_bit_len_bounds(c as nat);
        }
    }
    let mut x = c;
    let mut k: i32 = 0;
    while x > 0
        invariant
            bit_len(c as nat) == k + bit_len(x as nat),
            bit_len(c as nat) <= 64,
            k >= 0,
        decreases x,
    {
        x = x / 2;
        k = k + 1;
    }
    k
}

/// The scale of a sub-tree in scaled mode: the bit length of constants above 1, else 0.
pub open spec fn eff_scale_of(constant: nat, scaled: bool) -> int {
    if scaled && constant > 1 {
        bit_len(constant) as int
    } else {
        0
    }
}

/// Effective output scale of a sub-tree in scaled mode.
pub fn eff_scale(constant: usize, scaled: bool) -> (r: i32)
    ensures
        r == eff_scale_of(constant as nat, scaled),
        0 <= r <= 64,
{
    if scaled && constant > 1 {
        bit_length(constant)
    } else {
        0
    }
}

} // verus!
