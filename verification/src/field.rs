use vstd::prelude::*;
use vstd::arithmetic::div_mod::*;

verus! {

// Node values are 32-byte blocks read as little-endian integers and treated
// as elements of the prime field of order `r_mod()` (the BLS12-381 scalar
// field). Layer encoding adds a key to a value in that field; this module
// holds the byte-level representation, the modular add and subtract, and the
// proof that the two are mutually inverse.

/// 256 raised to the power `k`.
pub open spec fn pow256(k: nat) -> nat
    decreases k,
{
    if k == 0 {
        1
    } else {
        256 * pow256((k - 1) as nat)
    }
}

/// The little-endian value of a byte sequence.
pub open spec fn le_val(s: Seq<u8>) -> nat
    decreases s.len(),
{
    if s.len() == 0 {
        0
    } else {
        s[0] as nat + 256 * le_val(s.drop_first())
    }
}

/// The `k` little-endian bytes of `n` (low byte first).
pub open spec fn le_of(n: nat, k: nat) -> Seq<u8>
    decreases k,
{
    if k == 0 {
        Seq::empty()
    } else {
        seq![(n % 256) as u8] + le_of(n / 256, (k - 1) as nat)
    }
}

/// Low 64-bit limb of the modulus.
pub const R_LIMB0: u64 = 0xffffffff00000001;

/// Second 64-bit limb of the modulus.
pub const R_LIMB1: u64 = 0x53bda402fffe5bfe;

/// Third 64-bit limb of the modulus.
pub const R_LIMB2: u64 = 0x3339d80809a1d805;

/// High 64-bit limb of the modulus.
pub const R_LIMB3: u64 = 0x73eda753299d7d48;

/// Value of four 64-bit limbs, low limb first.
pub open spec fn val4(l0: u64, l1: u64, l2: u64, l3: u64) -> nat {
    l0 as nat + l1 as nat * pow256(8) + l2 as nat * pow256(16) + l3 as nat * pow256(24)
}

/// The order of the field: the BLS12-381 scalar modulus.
pub open spec fn r_mod() -> nat {
    val4(R_LIMB0, R_LIMB1, R_LIMB2, R_LIMB3)
}

/// A byte sequence whose value is a valid field element.
pub open spec fn is_fr(s: Seq<u8>) -> bool {
    s.len() == 32 && le_val(s) < r_mod()
}

/// Field addition on 32-byte values.
pub open spec fn fr_add_spec(a: Seq<u8>, b: Seq<u8>) -> Seq<u8> {
    le_of((le_val(a) + le_val(b)) % r_mod(), 32)
}

/// Field subtraction on 32-byte values.
pub open spec fn fr_sub_spec(a: Seq<u8>, b: Seq<u8>) -> Seq<u8> {
    le_of((((le_val(a) as int) - (le_val(b) as int)) % (r_mod() as int)) as nat, 32)
}

/// The canonical total byte-to-field mapping: clear the top two bits of the
/// high byte, so the value is below 2^254 and hence below the modulus.
pub open spec fn fr_safe_spec(h: Seq<u8>) -> Seq<u8> {
    h.update(31, (h[31] & 0x3f) as u8)
}

pub proof fn lemma_pow256_adds(a: nat, b: nat)
    ensures
        pow256(a + b) == pow256(a) * pow256(b),
    decreases a,
{
    if a == 0 {
        assert(pow256(0) == 1);
        assert(pow256(a + b) == pow256(b));
        assert(1 * pow256(b) == pow256(b));
    } else {
        lemma_pow256_adds((a - 1) as nat, b);
        assert(pow256((a + b - 1) as nat) == pow256((a - 1) as nat) * pow256(b));
        assert(pow256(a + b) == 256 * pow256((a + b - 1) as nat));
        assert(256 * (pow256((a - 1) as nat) * pow256(b)) == (256 * pow256((a - 1) as nat))
            * pow256(b)) by (nonlinear_arith);
        assert(pow256(a) == 256 * pow256((a - 1) as nat));
    }
}

pub proof fn lemma_pow256_pos(k: nat)
    ensures
        pow256(k) >= 1,
    decreases k,
{
    if k > 0 {
        lemma_pow256_pos((k - 1) as nat);
    }
}

/// Multiplication distributes over sum and difference.
proof fn lemma_dist(x: int, y: int, p: int)
    ensures
        (x + y) * p == x * p + y * p,
        (x - y) * p == x * p - y * p,
{
    assert((x + y) * p == x * p + y * p) by (nonlinear_arith);
    assert((x - y) * p == x * p - y * p) by (nonlinear_arith);
}

/// Splitting a double word at 2^64 gives a digit and a carry below 2^64.
proof fn lemma_split64(t: u128)
    ensures
        t == (t / 0x10000000000000000) * 0x10000000000000000 + (t % 0x10000000000000000),
        (t % 0x10000000000000000) < 0x10000000000000000,
        (t / 0x10000000000000000) < 0x10000000000000000,
{
    lemma_fundamental_div_mod(t as int, 0x10000000000000000);
    lemma_mod_bound(t as int, 0x10000000000000000);
    let q = (t as int) / 0x10000000000000000;
    assert(q < 0x10000000000000000) by {
        if q >= 0x10000000000000000 {
            assert(q * 0x10000000000000000 >= 0x10000000000000000 * 0x10000000000000000)
                by (nonlinear_arith)
                requires
                    q >= 0x10000000000000000,
            ;
        }
    }
}

/// Numeric value of the one power of 256 that fits a machine word pair, and
/// the product shape of the larger ones.
pub proof fn lemma_pow256_facts()
    ensures
        pow256(8) == 0x10000000000000000,
        pow256(16) == pow256(8) * pow256(8),
        pow256(24) == pow256(8) * pow256(16),
        pow256(32) == pow256(8) * pow256(24),
        pow256(31) * 256 == pow256(32),
{
    assert(pow256(0) == 1);
    assert(pow256(1) == 256);
    assert(pow256(2) == 0x10000);
    assert(pow256(3) == 0x1000000);
    assert(pow256(4) == 0x100000000);
    assert(pow256(5) == 0x10000000000);
    assert(pow256(6) == 0x1000000000000);
    assert(pow256(7) == 0x100000000000000);
    assert(pow256(8) == 0x10000000000000000);
    lemma_pow256_adds(8, 8);
    lemma_pow256_adds(8, 16);
    lemma_pow256_adds(8, 24);
    lemma_pow256_adds(31, 1);
}

pub proof fn lemma_le_val_bound(s: Seq<u8>)
    ensures
        le_val(s) < pow256(s.len()),
    decreases s.len(),
{
    if s.len() == 0 {
    } else {
        lemma_le_val_bound(s.drop_first());
    }
}

pub proof fn lemma_le_val_concat(a: Seq<u8>, b: Seq<u8>)
    ensures
        le_val(a + b) == le_val(a) + pow256(a.len()) * le_val(b),
    decreases a.len(),
{
    if a.len() == 0 {
        assert(a + b =~= b);
        assert(le_val(a) == 0);
        assert(pow256(0) == 1);
        assert(1 * le_val(b) == le_val(b));
    } else {
        assert((a + b).drop_first() =~= a.drop_first() + b);
        lemma_le_val_concat(a.drop_first(), b);
        assert(le_val(a.drop_first() + b) == le_val(a.drop_first()) + pow256((a.len() - 1) as nat)
            * le_val(b));
        assert(256 * (le_val(a.drop_first()) + pow256((a.len() - 1) as nat) * le_val(b)) == 256
            * le_val(a.drop_first()) + (256 * pow256((a.len() - 1) as nat)) * le_val(b))
            by (nonlinear_arith);
        assert(pow256(a.len()) == 256 * pow256((a.len() - 1) as nat));
        assert(le_val(a + b) == a[0] + 256 * le_val((a + b).drop_first()));
        assert(le_val(a) == a[0] + 256 * le_val(a.drop_first()));
        assert(256 * (le_val(a.drop_first() + b)) == 256 * le_val(a.drop_first()) + (256 * pow256(
            (a.len() - 1) as nat,
        )) * le_val(b));
    }
}

pub proof fn lemma_le_of_val(n: nat, k: nat)
    ensures
        le_of(n, k).len() == k,
        le_val(le_of(n, k)) == n % pow256(k),
    decreases k,
{
    if k == 0 {
        assert(n % 1 == 0) by {
            lemma_fundamental_div_mod_converse(n as int, 1, n as int, 0);
        }
    } else {
        lemma_le_of_val(n / 256, (k - 1) as nat);
        lemma_pow256_pos((k - 1) as nat);
        lemma_pow256_pos(k);
        let s = le_of(n, k);
        assert(s.drop_first() =~= le_of(n / 256, (k - 1) as nat));
        lemma_fundamental_div_mod(n as int, 256);
        lemma_fundamental_div_mod((n / 256) as int, pow256((k - 1) as nat) as int);
        let q = (n / 256) / pow256((k - 1) as nat);
        let rr = (n / 256) % pow256((k - 1) as nat);
        assert(n == 256 * (pow256((k - 1) as nat) * q + rr) + n % 256);
        assert(256 * (pow256((k - 1) as nat) * q + rr) == (256 * pow256((k - 1) as nat)) * q + 256
            * rr) by (nonlinear_arith);
        assert(n == pow256(k) * q + (n % 256 + 256 * rr));
        lemma_mod_bound((n / 256) as int, pow256((k - 1) as nat) as int);
        lemma_mod_bound(n as int, 256);
        assert(n % 256 + 256 * rr < pow256(k));
        lemma_fundamental_div_mod_converse(n as int, pow256(k) as int, q as int, (n % 256 + 256
            * rr) as int);
    }
}

pub proof fn lemma_le_of_inverse(s: Seq<u8>)
    ensures
        le_of(le_val(s), s.len()) == s,
    decreases s.len(),
{
    if s.len() == 0 {
        assert(le_of(le_val(s), 0) =~= s);
    } else {
        let n = le_val(s);
        let r = le_val(s.drop_first());
        assert(n == s[0] + 256 * r);
        lemma_mod_multiples_vanish(r as int, s[0] as int, 256);
        lemma_small_mod(s[0] as nat, 256);
        assert(n % 256 == s[0]);
        lemma_fundamental_div_mod(n as int, 256);
        assert(256 * (n / 256) == 256 * r);
        assert(n / 256 == r);
        lemma_le_of_inverse(s.drop_first());
        assert(le_of(n, s.len()) =~= s);
    }
}

/// Splits a 32-byte sequence into its four 8-byte limbs.
pub proof fn lemma_le_val_limbs(s: Seq<u8>)
    requires
        s.len() == 32,
    ensures
        le_val(s) == le_val(s.subrange(0, 8)) + le_val(s.subrange(8, 16)) * pow256(8) + le_val(
            s.subrange(16, 24),
        ) * pow256(16) + le_val(s.subrange(24, 32)) * pow256(24),
{
    let a = s.subrange(0, 8);
    let b = s.subrange(8, 16);
    let c = s.subrange(16, 24);
    let d = s.subrange(24, 32);
    assert(s =~= a + (b + (c + d)));
    lemma_le_val_concat(c, d);
    lemma_le_val_concat(b, c + d);
    lemma_le_val_concat(a, b + (c + d));
    lemma_pow256_facts();
    assert(pow256(8) * (le_val(b) + pow256(8) * (le_val(c) + pow256(8) * le_val(d))) == le_val(b)
        * pow256(8) + le_val(c) * pow256(16) + le_val(d) * pow256(24)) by (nonlinear_arith)
        requires
            pow256(16) == pow256(8) * pow256(8),
            pow256(24) == pow256(8) * pow256(16),
    ;
}

proof fn lemma_le_val8(s: Seq<u8>)
    requires
        s.len() == 8,
    ensures
        le_val(s) == s[0] + s[1] * 0x100 + s[2] * 0x10000 + s[3] * 0x1000000 + s[4] * 0x100000000
            + s[5] * 0x10000000000 + s[6] * 0x1000000000000 + s[7] * 0x100000000000000,
{
    let s1 = s.drop_first();
    let s2 = s1.drop_first();
    let s3 = s2.drop_first();
    let s4 = s3.drop_first();
    let s5 = s4.drop_first();
    let s6 = s5.drop_first();
    let s7 = s6.drop_first();
    assert(s7.drop_first().len() == 0);
    assert(le_val(s7.drop_first()) == 0);
    assert(le_val(s7) == s[7]);
    assert(le_val(s6) == s[6] + 256 * le_val(s7));
    assert(le_val(s5) == s[5] + 256 * le_val(s6));
    assert(le_val(s4) == s[4] + 256 * le_val(s5));
    assert(le_val(s3) == s[3] + 256 * le_val(s4));
    assert(le_val(s2) == s[2] + 256 * le_val(s3));
    assert(le_val(s1) == s[1] + 256 * le_val(s2));
    assert(le_val(s) == s[0] + 256 * le_val(s1));
}

/// The modulus sits between 2^254 and 2^256.
pub proof fn lemma_r_bounds()
    ensures
        r_mod() < pow256(32),
        2 * r_mod() < pow256(32),
        0x4000000000000000 * pow256(24) < r_mod(),
        pow256(24) * 0x4000000000000000 < r_mod(),
{
    lemma_pow256_facts();
    lemma_val4_bound(R_LIMB0, R_LIMB1, R_LIMB2, R_LIMB3);
    lemma_val3_bound(R_LIMB0, R_LIMB1, R_LIMB2);
    assert(2 * r_mod() < 2 * (R_LIMB3 as int + 1) * pow256(24)) by (nonlinear_arith)
        requires
            (r_mod() as int) < (R_LIMB3 as int + 1) * pow256(24),
    ;
    assert(2 * (R_LIMB3 as int + 1) * pow256(24) <= pow256(8) * pow256(24)) by (nonlinear_arith)
        requires
            pow256(8) == 0x10000000000000000,
            pow256(24) >= 0,
    ;
    assert((r_mod() as int) < (R_LIMB3 as int + 1) * pow256(24)) by {
        lemma_dist(R_LIMB3 as int, 1, pow256(24) as int);
    }
    assert(0x4000000000000000 * pow256(24) < R_LIMB3 as nat * pow256(24)) by (nonlinear_arith)
        requires
            pow256(24) >= 1,
            (0x4000000000000000 as nat) < (R_LIMB3 as nat),
    ;
}

/// Any four limbs are worth less than 2^256.
proof fn lemma_val4_bound(l0: u64, l1: u64, l2: u64, l3: u64)
    ensures
        val4(l0, l1, l2, l3) < pow256(32),
{
    lemma_pow256_facts();
    assert(l0 as nat + l1 as nat * pow256(8) + l2 as nat * pow256(16) + l3 as nat * pow256(24)
        < pow256(8) * pow256(24)) by (nonlinear_arith)
        requires
            (l0 as nat) < pow256(8),
            (l1 as nat) < pow256(8),
            (l2 as nat) < pow256(8),
            (l3 as nat) < pow256(8),
            pow256(8) >= 1,
            pow256(16) == pow256(8) * pow256(8),
            pow256(24) == pow256(8) * pow256(16),
    ;
}

/// Reads the 8-byte little-endian limb at `off`.
fn load_u64(b: &Vec<u8>, off: usize) -> (r: u64)
    requires
        b@.len() == 32,
        off + 8 <= 32,
    ensures
        r as nat == le_val(b@.subrange(off as int, off as int + 8)),
{
    let r128: u128 = b[off] as u128 + (b[off + 1] as u128) * 0x100 + (b[off + 2] as u128)
        * 0x10000 + (b[off + 3] as u128) * 0x1000000 + (b[off + 4] as u128) * 0x100000000 + (b[off
        + 5] as u128) * 0x10000000000 + (b[off + 6] as u128) * 0x1000000000000 + (b[off
        + 7] as u128) * 0x100000000000000;
    proof {
        lemma_le_val8(b@.subrange(off as int, off as int + 8));
        lemma_le_val_bound(b@.subrange(off as int, off as int + 8));
        lemma_pow256_facts();
    }
    r128 as u64
}

/// Appends the 8 little-endian bytes of `l`.
fn push_u64(out: &mut Vec<u8>, l: u64)
    ensures
        final(out)@ == old(out)@ + le_of(l as nat, 8),
{
    let ghost orig = out@;
    out.push((l % 0x100) as u8);
    out.push(((l / 0x100) % 0x100) as u8);
    out.push(((l / 0x10000) % 0x100) as u8);
    out.push(((l / 0x1000000) % 0x100) as u8);
    out.push(((l / 0x100000000) % 0x100) as u8);
    out.push(((l / 0x10000000000) % 0x100) as u8);
    out.push(((l / 0x1000000000000) % 0x100) as u8);
    out.push(((l / 0x100000000000000) % 0x100) as u8);
    proof {
        let n = l as nat;
        lemma_div_chain(n);
        assert(out@ =~= orig + le_of(l as nat, 8)) by {
            lemma_div_chain(n);
            assert(le_of(n, 8)[0] == (n % 256) as u8);
            assert(le_of(n, 8).drop_first() =~= le_of(n / 256, 7));
            assert(le_of(n / 256, 7).drop_first() =~= le_of(n / 256 / 256, 6));
            assert(le_of(n / 256 / 256, 6).drop_first() =~= le_of(n / 256 / 256 / 256, 5));
            assert(le_of(n / 256 / 256 / 256, 5).drop_first() =~= le_of(n / 256 / 256 / 256 / 256,
                4));
            assert(le_of(n / 256 / 256 / 256 / 256, 4).drop_first() =~= le_of(n / 256 / 256 / 256
                / 256 / 256, 3));
            assert(le_of(n / 256 / 256 / 256 / 256 / 256, 3).drop_first() =~= le_of(n / 256 / 256
                / 256 / 256 / 256 / 256, 2));
            assert(le_of(n / 256 / 256 / 256 / 256 / 256 / 256, 2).drop_first() =~= le_of(n / 256
                / 256 / 256 / 256 / 256 / 256 / 256, 1));
            assert(le_of(n / 256 / 256 / 256 / 256 / 256 / 256 / 256, 1).drop_first() =~= le_of(n
                / 256 / 256 / 256 / 256 / 256 / 256 / 256 / 256, 0));
        }
    }
}

/// Nested division by 256 equals division by the matching power.
proof fn lemma_div_chain(n: nat)
    ensures
        n / 256 / 256 == n / 0x10000,
        n / 256 / 256 / 256 == n / 0x1000000,
        n / 256 / 256 / 256 / 256 == n / 0x100000000,
        n / 256 / 256 / 256 / 256 / 256 == n / 0x10000000000,
        n / 256 / 256 / 256 / 256 / 256 / 256 == n / 0x1000000000000,
        n / 256 / 256 / 256 / 256 / 256 / 256 / 256 == n / 0x100000000000000,
{
    lemma_div_denominator(n as int, 256, 256);
    lemma_div_denominator(n as int, 0x10000, 256);
    lemma_div_denominator(n as int, 0x1000000, 256);
    lemma_div_denominator(n as int, 0x100000000, 256);
    lemma_div_denominator(n as int, 0x10000000000, 256);
    lemma_div_denominator(n as int, 0x1000000000000, 256);
}

/// A value below twice the modulus reduces by at most one subtraction.
proof fn lemma_mod_two_r(x: nat)
    requires
        x < 2 * r_mod(),
    ensures
        x % r_mod() == if x < r_mod() {
            x
        } else {
            (x - r_mod()) as nat
        },
{
    if x < r_mod() {
        lemma_small_mod(x, r_mod());
    } else {
        lemma_fundamental_div_mod_converse(x as int, r_mod() as int, 1, x - r_mod());
    }
}

struct Limbs {
    l0: u64,
    l1: u64,
    l2: u64,
    l3: u64,
}

/// Adds two limb values whose mathematical sum stays below 2^256.
fn add_limbs(a: &Limbs, b: &Limbs) -> (r: Limbs)
    requires
        val4(a.l0, a.l1, a.l2, a.l3) + val4(b.l0, b.l1, b.l2, b.l3) < pow256(32),
    ensures
        val4(r.l0, r.l1, r.l2, r.l3) == val4(a.l0, a.l1, a.l2, a.l3) + val4(b.l0, b.l1, b.l2, b.l3),
{
    proof {
        lemma_pow256_facts();
    }
    let t0: u128 = a.l0 as u128 + b.l0 as u128;
    let d0 = (t0 % 0x10000000000000000) as u64;
    let c0 = (t0 / 0x10000000000000000) as u64;
    let t1: u128 = a.l1 as u128 + b.l1 as u128 + c0 as u128;
    let d1 = (t1 % 0x10000000000000000) as u64;
    let c1 = (t1 / 0x10000000000000000) as u64;
    let t2: u128 = a.l2 as u128 + b.l2 as u128 + c1 as u128;
    let d2 = (t2 % 0x10000000000000000) as u64;
    let c2 = (t2 / 0x10000000000000000) as u64;
    let t3: u128 = a.l3 as u128 + b.l3 as u128 + c2 as u128;
    let d3 = (t3 % 0x10000000000000000) as u64;
    let c3 = (t3 / 0x10000000000000000) as u64;
    proof {
        lemma_split64(t0);
        lemma_split64(t1);
        lemma_split64(t2);
        lemma_split64(t3);
        lemma_carry_value(
            a.l0 as int + b.l0 as int,
            a.l1 as int + b.l1 as int,
            a.l2 as int + b.l2 as int,
            a.l3 as int + b.l3 as int,
            c0 as int,
            c1 as int,
            c2 as int,
            c3 as int,
            d0,
            d1,
            d2,
            d3,
        );
        let p8 = pow256(8) as int;
        let p16 = pow256(16) as int;
        let p24 = pow256(24) as int;
        lemma_dist(a.l1 as int, b.l1 as int, p8);
        lemma_dist(a.l2 as int, b.l2 as int, p16);
        lemma_dist(a.l3 as int, b.l3 as int, p24);
        assert(val4(d0, d1, d2, d3) + c3 as int * pow256(32) == val4(a.l0, a.l1, a.l2, a.l3)
            + val4(b.l0, b.l1, b.l2, b.l3));
        assert(c3 == 0) by {
            if c3 >= 1 {
                assert(c3 as int * pow256(32) >= pow256(32)) by (nonlinear_arith)
                    requires
                        (c3 as int) >= 1,
                        pow256(32) >= 1,
                ;
            }
        }
        assert(c3 as int * pow256(32) == 0) by (nonlinear_arith)
            requires
                c3 as int == 0,
        ;
    }
    Limbs { l0: d0, l1: d1, l2: d2, l3: d3 }
}

/// The defining identity of a four-step carry chain: digits plus the final
/// carry weighted by 2^256 recover the unreduced column sums.
proof fn lemma_carry_value(
    e0: int,
    e1: int,
    e2: int,
    e3: int,
    c0: int,
    c1: int,
    c2: int,
    c3: int,
    d0: u64,
    d1: u64,
    d2: u64,
    d3: u64,
)
    requires
        d0 == e0 - c0 * pow256(8),
        d1 == e1 + c0 - c1 * pow256(8),
        d2 == e2 + c1 - c2 * pow256(8),
        d3 == e3 + c2 - c3 * pow256(8),
    ensures
        val4(d0, d1, d2, d3) + c3 * pow256(32) == e0 + e1 * pow256(8) + e2 * pow256(16) + e3
            * pow256(24),
{
    lemma_pow256_facts();
    let p8 = pow256(8) as int;
    let p16 = pow256(16) as int;
    let p24 = pow256(24) as int;
    let p32 = pow256(32) as int;
    assert(d1 as int * p8 == e1 * p8 + c0 * p8 - c1 * p16) by (nonlinear_arith)
        requires
            d1 == e1 + c0 - c1 * p8,
            p16 == p8 * p8,
    ;
    assert(d2 as int * p16 == e2 * p16 + c1 * p16 - c2 * p24) by (nonlinear_arith)
        requires
            d2 == e2 + c1 - c2 * p8,
            p24 == p8 * p16,
    ;
    assert(d3 as int * p24 == e3 * p24 + c2 * p24 - c3 * p32) by (nonlinear_arith)
        requires
            d3 == e3 + c2 - c3 * p8,
            p32 == p8 * p24,
    ;
}

/// True when the limb value is at least the modulus.
fn ge_r_limbs(a: &Limbs) -> (r: bool)
    ensures
        r == (val4(a.l0, a.l1, a.l2, a.l3) >= r_mod()),
{
    proof {
        lemma_pow256_facts();
        lemma_limb_order(a.l0, a.l1, a.l2, a.l3, R_LIMB0, R_LIMB1, R_LIMB2, R_LIMB3);
    }
    if a.l3 != R_LIMB3 {
        a.l3 > R_LIMB3
    } else if a.l2 != R_LIMB2 {
        a.l2 > R_LIMB2
    } else if a.l1 != R_LIMB1 {
        a.l1 > R_LIMB1
    } else {
        a.l0 >= R_LIMB0
    }
}

/// Limb values compare lexicographically from the high limb down.
proof fn lemma_limb_order(a0: u64, a1: u64, a2: u64, a3: u64, b0: u64, b1: u64, b2: u64, b3: u64)
    ensures
        a3 > b3 ==> val4(a0, a1, a2, a3) > val4(b0, b1, b2, b3),
        a3 < b3 ==> val4(a0, a1, a2, a3) < val4(b0, b1, b2, b3),
        a3 == b3 && a2 > b2 ==> val4(a0, a1, a2, a3) > val4(b0, b1, b2, b3),
        a3 == b3 && a2 < b2 ==> val4(a0, a1, a2, a3) < val4(b0, b1, b2, b3),
        a3 == b3 && a2 == b2 && a1 > b1 ==> val4(a0, a1, a2, a3) > val4(b0, b1, b2, b3),
        a3 == b3 && a2 == b2 && a1 < b1 ==> val4(a0, a1, a2, a3) < val4(b0, b1, b2, b3),
        a3 == b3 && a2 == b2 && a1 == b1 ==> (val4(a0, a1, a2, a3) >= val4(b0, b1, b2, b3) <==> a0
            >= b0),
{
    lemma_pow256_facts();
    let p8 = pow256(8) as int;
    let p16 = pow256(16) as int;
    let p24 = pow256(24) as int;
    lemma_val3_bound(a0, a1, a2);
    lemma_val3_bound(b0, b1, b2);
    if a3 > b3 {
        assert((a3 as int) * p24 >= (b3 as int) * p24 + p24) by (nonlinear_arith)
            requires
                (a3 as int) >= (b3 as int) + 1,
                p24 >= 0,
        ;
    }
    if a3 < b3 {
        assert((b3 as int) * p24 >= (a3 as int) * p24 + p24) by (nonlinear_arith)
            requires
                (b3 as int) >= (a3 as int) + 1,
                p24 >= 0,
        ;
    }
    if a3 == b3 && a2 > b2 {
        assert((a2 as int) * p16 >= (b2 as int) * p16 + p16) by (nonlinear_arith)
            requires
                (a2 as int) >= (b2 as int) + 1,
                p16 >= 0,
        ;
        lemma_val2_bound(a0, a1);
        lemma_val2_bound(b0, b1);
    }
    if a3 == b3 && a2 < b2 {
        assert((b2 as int) * p16 >= (a2 as int) * p16 + p16) by (nonlinear_arith)
            requires
                (b2 as int) >= (a2 as int) + 1,
                p16 >= 0,
        ;
        lemma_val2_bound(a0, a1);
        lemma_val2_bound(b0, b1);
    }
    if a3 == b3 && a2 == b2 && a1 > b1 {
        assert((a1 as int) * p8 >= (b1 as int) * p8 + p8) by (nonlinear_arith)
            requires
                (a1 as int) >= (b1 as int) + 1,
                p8 >= 0,
        ;
    }
    if a3 == b3 && a2 == b2 && a1 < b1 {
        assert((b1 as int) * p8 >= (a1 as int) * p8 + p8) by (nonlinear_arith)
            requires
                (b1 as int) >= (a1 as int) + 1,
                p8 >= 0,
        ;
    }
}

/// A three-limb value stays below 2^192.
proof fn lemma_val3_bound(l0: u64, l1: u64, l2: u64)
    ensures
        l0 as int + (l1 as int) * pow256(8) + (l2 as int) * pow256(16) < pow256(24),
{
    lemma_pow256_facts();
    assert(l0 as int + (l1 as int) * pow256(8) + (l2 as int) * pow256(16) < pow256(8) * pow256(
        16,
    )) by (nonlinear_arith)
        requires
            (l0 as int) < pow256(8),
            (l1 as int) < pow256(8),
            (l2 as int) < pow256(8),
            pow256(8) >= 1,
            pow256(16) == pow256(8) * pow256(8),
    ;
}

/// A two-limb value stays below 2^128.
proof fn lemma_val2_bound(l0: u64, l1: u64)
    ensures
        l0 as int + (l1 as int) * pow256(8) < pow256(16),
{
    lemma_pow256_facts();
    assert(l0 as int + (l1 as int) * pow256(8) < pow256(8) * pow256(8)) by (nonlinear_arith)
        requires
            (l0 as int) < pow256(8),
            (l1 as int) < pow256(8),
            pow256(8) >= 1,
    ;
}

/// Subtracts the modulus from a limb value that is at least the modulus.
fn sub_r_limbs(a: &Limbs) -> (r: Limbs)
    requires
        val4(a.l0, a.l1, a.l2, a.l3) >= r_mod(),
    ensures
        val4(r.l0, r.l1, r.l2, r.l3) == val4(a.l0, a.l1, a.l2, a.l3) - r_mod(),
{
    let rl = Limbs { l0: R_LIMB0, l1: R_LIMB1, l2: R_LIMB2, l3: R_LIMB3 };
    sub_limbs_total(a, &rl)
}

/// Subtracts limb values where the first is known to be at least the second.
fn sub_limbs_total(a: &Limbs, b: &Limbs) -> (r: Limbs)
    requires
        val4(a.l0, a.l1, a.l2, a.l3) >= val4(b.l0, b.l1, b.l2, b.l3),
    ensures
        val4(r.l0, r.l1, r.l2, r.l3) == val4(a.l0, a.l1, a.l2, a.l3) - val4(b.l0, b.l1, b.l2, b.l3),
{
    proof {
        lemma_pow256_facts();
    }
    let t0: u128 = a.l0 as u128 + 0x10000000000000000 - b.l0 as u128;
    let d0 = (t0 % 0x10000000000000000) as u64;
    let c0 = (t0 / 0x10000000000000000) as u64;
    let t1: u128 = a.l1 as u128 + 0x10000000000000000 - b.l1 as u128 - (1 - c0) as u128;
    let d1 = (t1 % 0x10000000000000000) as u64;
    let c1 = (t1 / 0x10000000000000000) as u64;
    let t2: u128 = a.l2 as u128 + 0x10000000000000000 - b.l2 as u128 - (1 - c1) as u128;
    let d2 = (t2 % 0x10000000000000000) as u64;
    let c2 = (t2 / 0x10000000000000000) as u64;
    let t3: u128 = a.l3 as u128 + 0x10000000000000000 - b.l3 as u128 - (1 - c2) as u128;
    let d3 = (t3 % 0x10000000000000000) as u64;
    let c3 = (t3 / 0x10000000000000000) as u64;
    proof {
        lemma_split64(t0);
        lemma_split64(t1);
        lemma_split64(t2);
        lemma_split64(t3);
        let p8 = pow256(8) as int;
        let p16 = pow256(16) as int;
        let p24 = pow256(24) as int;
        // Rewrite each step in carry-chain form: the column value is
        // a_i - b_i - borrow_in, and the stored digit d_i differs from it by
        // (c_i - 1) * 2^64.
        lemma_dist(c0 as int, 1, p8);
        lemma_dist(c1 as int, 1, p8);
        lemma_dist(c2 as int, 1, p8);
        lemma_dist(c3 as int, 1, p8);
        lemma_carry_value(
            a.l0 as int - b.l0 as int,
            a.l1 as int - b.l1 as int,
            a.l2 as int - b.l2 as int,
            a.l3 as int - b.l3 as int,
            c0 as int - 1,
            c1 as int - 1,
            c2 as int - 1,
            c3 as int - 1,
            d0,
            d1,
            d2,
            d3,
        );
        let va = val4(a.l0, a.l1, a.l2, a.l3) as int;
        let vb = val4(b.l0, b.l1, b.l2, b.l3) as int;
        let vd = val4(d0, d1, d2, d3) as int;
        lemma_dist(a.l1 as int, b.l1 as int, p8);
        lemma_dist(a.l2 as int, b.l2 as int, p16);
        lemma_dist(a.l3 as int, b.l3 as int, p24);
        lemma_dist(c3 as int, 1, pow256(32) as int);
        assert(vd + (c3 as int - 1) * pow256(32) == va - vb);
        assert(c3 == 1) by {
            lemma_val4_bound(d0, d1, d2, d3);
            lemma_val4_bound(a.l0, a.l1, a.l2, a.l3);
            if c3 == 0 {
                assert(vd - pow256(32) == va - vb);
            } else if c3 >= 2 {
                assert((c3 as int - 1) * pow256(32) >= pow256(32)) by (nonlinear_arith)
                    requires
                        (c3 as int) - 1 >= 1,
                        pow256(32) >= 1,
                ;
            }
        }
    }
    Limbs { l0: d0, l1: d1, l2: d2, l3: d3 }
}

fn bytes_to_limbs(a: &Vec<u8>) -> (r: Limbs)
    requires
        a@.len() == 32,
    ensures
        val4(r.l0, r.l1, r.l2, r.l3) == le_val(a@),
{
    let l0 = load_u64(a, 0);
    let l1 = load_u64(a, 8);
    let l2 = load_u64(a, 16);
    let l3 = load_u64(a, 24);
    proof {
        lemma_le_val_limbs(a@);
    }
    Limbs { l0, l1, l2, l3 }
}

fn limbs_to_bytes(a: &Limbs) -> (r: Vec<u8>)
    ensures
        r@.len() == 32,
        le_val(r@) == val4(a.l0, a.l1, a.l2, a.l3),
        r@ == le_of(val4(a.l0, a.l1, a.l2, a.l3), 32),
{
    let mut out: Vec<u8> = Vec::new();
    push_u64(&mut out, a.l0);
    push_u64(&mut out, a.l1);
    push_u64(&mut out, a.l2);
    push_u64(&mut out, a.l3);
    proof {
        lemma_pow256_facts();
        let s0 = le_of(a.l0 as nat, 8);
        let s1 = le_of(a.l1 as nat, 8);
        let s2 = le_of(a.l2 as nat, 8);
        let s3 = le_of(a.l3 as nat, 8);
        lemma_le_of_val(a.l0 as nat, 8);
        lemma_le_of_val(a.l1 as nat, 8);
        lemma_le_of_val(a.l2 as nat, 8);
        lemma_le_of_val(a.l3 as nat, 8);
        lemma_small_mod(a.l0 as nat, pow256(8));
        lemma_small_mod(a.l1 as nat, pow256(8));
        lemma_small_mod(a.l2 as nat, pow256(8));
        lemma_small_mod(a.l3 as nat, pow256(8));
        assert(out@ =~= s0 + (s1 + (s2 + s3)));
        lemma_le_val_concat(s2, s3);
        lemma_le_val_concat(s1, s2 + s3);
        lemma_le_val_concat(s0, s1 + (s2 + s3));
        assert(pow256(8) * (a.l1 as nat + pow256(8) * (a.l2 as nat + pow256(8) * (a.l3 as nat)))
            == a.l1 as nat * pow256(8) + a.l2 as nat * pow256(16) + a.l3 as nat * pow256(24))
            by (nonlinear_arith)
            requires
                pow256(16) == pow256(8) * pow256(8),
                pow256(24) == pow256(8) * pow256(16),
        ;
        assert(out@.len() == 32);
        lemma_le_of_inverse(out@);
    }
    out
}

/// True when the 32 bytes read as a value below the modulus.
pub fn fr_valid(a: &Vec<u8>) -> (r: bool)
    requires
        a@.len() == 32,
    ensures
        r == (le_val(a@) < r_mod()),
{
    let l = bytes_to_limbs(a);
    !ge_r_limbs(&l)
}

/// Field addition: 32-byte little-endian values, sum taken mod the modulus.
pub fn fr_add(a: &Vec<u8>, b: &Vec<u8>) -> (r: Vec<u8>)
    requires
        is_fr(a@),
        is_fr(b@),
    ensures
        r@ == fr_add_spec(a@, b@),
        is_fr(r@),
        le_val(r@) == (le_val(a@) + le_val(b@)) % r_mod(),
{
    let la = bytes_to_limbs(a);
    let lb = bytes_to_limbs(b);
    proof {
        lemma_r_bounds();
    }
    let sum = add_limbs(&la, &lb);
    let red = if ge_r_limbs(&sum) {
        sub_r_limbs(&sum)
    } else {
        sum
    };
    proof {
        lemma_mod_two_r(le_val(a@) + le_val(b@));
    }
    limbs_to_bytes(&red)
}

/// Field subtraction: the inverse of `fr_add` in the second argument.
pub fn fr_sub(a: &Vec<u8>, b: &Vec<u8>) -> (r: Vec<u8>)
    requires
        is_fr(a@),
        is_fr(b@),
    ensures
        r@ == fr_sub_spec(a@, b@),
        is_fr(r@),
{
    let la = bytes_to_limbs(a);
    let lb = bytes_to_limbs(b);
    proof {
        lemma_r_bounds();
    }
    // a + R never reaches 2^256, so compute (a + R) - b, then reduce once.
    let lr = Limbs { l0: R_LIMB0, l1: R_LIMB1, l2: R_LIMB2, l3: R_LIMB3 };
    let t = add_limbs(&la, &lr);
    let u = sub_limbs_total(&t, &lb);
    let red = if ge_r_limbs(&u) {
        sub_r_limbs(&u)
    } else {
        u
    };
    proof {
        let va = le_val(a@) as int;
        let vb = le_val(b@) as int;
        let rr = r_mod() as int;
        lemma_mod_two_r((va + rr - vb) as nat);
        if va >= vb {
            lemma_fundamental_div_mod_converse(va - vb, rr, 0, va - vb);
        } else {
            lemma_fundamental_div_mod_converse(va - vb, rr, -1, va - vb + rr);
        }
    }
    limbs_to_bytes(&red)
}

/// The canonical byte-to-field mapping: copies the input with the top two
/// bits of the high byte cleared, so any 32 bytes give a valid field element.
pub fn fr_safe(h: &Vec<u8>) -> (r: Vec<u8>)
    requires
        h@.len() == 32,
    ensures
        r@ == fr_safe_spec(h@),
        is_fr(r@),
{
    let mut out = h.clone();
    let top = out[31];
    let masked = top & 0x3f;
    out.set(31, masked);
    proof {
        assert(out@ =~= fr_safe_spec(h@));
        lemma_fr_safe_valid(h@);
    }
    out
}

/// The masked value is below 2^254 and hence below the modulus.
pub proof fn lemma_fr_safe_valid(h: Seq<u8>)
    requires
        h.len() == 32,
    ensures
        is_fr(fr_safe_spec(h)),
{
    let s = fr_safe_spec(h);
    assert(s[31] <= 0x3f) by {
        let x = h[31];
        assert(x & 0x3f <= 0x3f) by (bit_vector);
    }
    let a = s.subrange(0, 31);
    let b = s.subrange(31, 32);
    assert(s =~= a + b);
    lemma_le_val_concat(a, b);
    lemma_le_val_bound(a);
    assert(le_val(b) == s[31] + 256 * le_val(b.drop_first()));
    assert(b.drop_first().len() == 0);
    assert(le_val(b) <= 0x3f);
    assert(pow256(31) * le_val(b) <= pow256(31) * 0x3f) by (nonlinear_arith)
        requires
            le_val(b) <= 0x3f,
            pow256(31) >= 0,
    ;
    assert(le_val(s) < pow256(31) + pow256(31) * 0x3f);
    assert(pow256(31) + pow256(31) * 0x3f == pow256(31) * 0x40);
    assert(pow256(31) * 0x40 == pow256(24) * 0x4000000000000000) by {
        lemma_pow256_adds(24, 7);
        assert(pow256(7) == 0x100000000000000) by {
            lemma_pow256_facts();
        }
        assert((pow256(24) * 0x100000000000000) * 0x40 == pow256(24) * 0x4000000000000000)
            by (nonlinear_arith);
    }
    lemma_r_bounds();
}

/// Adding a key and then subtracting it restores any field element, and
/// adding a nonzero key always changes the value: encoding is invertible and
/// never idempotent.
pub proof fn lemma_encoding_invertible(v: Seq<u8>, k: Seq<u8>)
    requires
        is_fr(v),
        is_fr(k),
    ensures
        fr_sub_spec(fr_add_spec(v, k), k) == v,
        le_val(k) != 0 ==> fr_add_spec(v, k) != v,
        le_val(k) != 0 ==> fr_add_spec(fr_add_spec(v, k), k) != fr_add_spec(v, k),
{
    let rr = r_mod() as int;
    let vv = le_val(v) as int;
    let kk = le_val(k) as int;
    lemma_r_bounds();
    lemma_mod_two_r((vv + kk) as nat);
    let s = fr_add_spec(v, k);
    lemma_le_of_val(((vv + kk) % rr) as nat, 32);
    lemma_mod_bound(vv + kk, rr);
    lemma_small_mod(((vv + kk) % rr) as nat, pow256(32));
    assert(le_val(s) == (vv + kk) % rr);
    assert(is_fr(s));
    // subtraction restores v
    let sv = le_val(s) as int;
    if sv >= kk {
        lemma_fundamental_div_mod_converse(sv - kk, rr, 0, sv - kk);
    } else {
        lemma_fundamental_div_mod_converse(sv - kk, rr, -1, sv - kk + rr);
    }
    assert((sv - kk) % rr == vv);
    assert(fr_sub_spec(s, k) == le_of(vv as nat, 32));
    lemma_le_of_inverse(v);
    // a nonzero key moves every value
    if le_val(k) != 0 {
        assert(le_val(s) != le_val(v));
        assert(s != v) by {
            if s == v {
                assert(le_val(s) == le_val(v));
            }
        }
        let s2 = fr_add_spec(s, k);
        lemma_mod_two_r((sv + kk) as nat);
        lemma_le_of_val(((sv + kk) % rr) as nat, 32);
        lemma_mod_bound(sv + kk, rr);
        lemma_small_mod(((sv + kk) % rr) as nat, pow256(32));
        assert(le_val(s2) != le_val(s));
        assert(s2 != s) by {
            if s2 == s {
                assert(le_val(s2) == le_val(s));
            }
        }
    }
}

} // verus!
