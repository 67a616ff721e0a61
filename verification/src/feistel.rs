use vstd::prelude::*;
use crate::counting::lemma_distinct_in_range;

verus! {

// An invertible pseudorandom permutation over [0, num_elements), built as a
// three-round Feistel network whose round function is a BLAKE2b digest, with
// cycle-walking to shrink the power-of-four domain onto the requested range.
// The network itself is verified; only the digest is trusted.

/// What the BLAKE2b digest of a byte string is. The name stands for a pure
/// function of the input alone.
pub uninterp spec fn blake2b_of(input: Seq<u8>) -> Seq<u8>;

/// Relies on blake2b_simd::blake2b: the unkeyed BLAKE2b digest of the input
/// at the default 64-byte output length, a deterministic function of the
/// input bytes alone.
#[verifier::external_body]
fn blake2b_hash(data: &Vec<u8>) -> (r: Vec<u8>)
    ensures
        r@ == blake2b_of(data@),
        r@.len() == 64,
{
    blake2b_simd::blake2b(data.as_slice()).as_bytes().to_vec()
}

/// The 8 big-endian bytes of a word.
pub open spec fn be8(x: u64) -> Seq<u8> {
    seq![
        (x >> 56) as u8,
        (x >> 48) as u8,
        (x >> 40) as u8,
        (x >> 32) as u8,
        (x >> 24) as u8,
        (x >> 16) as u8,
        (x >> 8) as u8,
        x as u8,
    ]
}

/// The first 8 digest bytes read big-endian.
pub open spec fn be_word(h: Seq<u8>) -> u64 {
    ((h[0] as u64) << 56 | (h[1] as u64) << 48 | (h[2] as u64) << 40 | (h[3] as u64) << 32 | (
    h[4] as u64) << 24 | (h[5] as u64) << 16 | (h[6] as u64) << 8 | (h[7] as u64)) as u64
}

/// Feistel round function: hash the right half together with the round key
/// and keep the masked top word of the digest.
pub open spec fn round_of(right: u64, key: u64, rm: u64) -> u64 {
    (be_word(blake2b_of(be8(right) + be8(key))) & rm) as u64
}

/// Masks with `h` half-bits: the right mask is the low `h` bits.
pub open spec fn mask_wf(rm: u64, h: u64) -> bool {
    1 <= h <= 31 && rm == ((1u64 << h) - 1) as u64
}

/// The permutation domain: 2^(2h) indices.
pub open spec fn dom(h: u64) -> u64 {
    (1u64 << (2 * h)) as u64
}

/// One forward pass of the three-round network.
pub open spec fn encode_spec(x: u64, k0: u64, k1: u64, k2: u64, rm: u64, h: u64) -> u64 {
    let l0 = ((x & (rm << h)) >> h) as u64;
    let r0 = (x & rm) as u64;
    let l1 = r0;
    let r1 = (l0 ^ round_of(r0, k0, rm)) as u64;
    let l2 = r1;
    let r2 = (l1 ^ round_of(r1, k1, rm)) as u64;
    let l3 = r2;
    let r3 = (l2 ^ round_of(r2, k2, rm)) as u64;
    ((l3 << h) | r3) as u64
}

/// One backward pass of the three-round network.
pub open spec fn decode_spec(x: u64, k0: u64, k1: u64, k2: u64, rm: u64, h: u64) -> u64 {
    let l0 = ((x & (rm << h)) >> h) as u64;
    let r0 = (x & rm) as u64;
    let l1 = (r0 ^ round_of(l0, k2, rm)) as u64;
    let r1 = l0;
    let l2 = (r1 ^ round_of(l1, k1, rm)) as u64;
    let r2 = l1;
    let l3 = (r2 ^ round_of(l2, k0, rm)) as u64;
    let r3 = l2;
    ((l3 << h) | r3) as u64
}

/// `j` applications of the backward pass.
pub open spec fn iter_dec(j: nat, x: u64, k0: u64, k1: u64, k2: u64, rm: u64, h: u64) -> u64
    decreases j,
{
    if j == 0 {
        x
    } else {
        decode_spec(iter_dec((j - 1) as nat, x, k0, k1, k2, rm, h), k0, k1, k2, rm, h)
    }
}

/// `j` is the first backward iterate that lands below `n`.
pub open spec fn first_hit(
    j: nat,
    n: u64,
    x: u64,
    k0: u64,
    k1: u64,
    k2: u64,
    rm: u64,
    h: u64,
) -> bool {
    1 <= j && iter_dec(j, x, k0, k1, k2, rm, h) < n && (forall|i: nat|
        1 <= i < j ==> iter_dec(i, x, k0, k1, k2, rm, h) >= n)
}

/// The walk length of the cycle-walking inversion.
pub open spec fn walk_len(n: u64, x: u64, k0: u64, k1: u64, k2: u64, rm: u64, h: u64) -> nat {
    choose|j: nat| first_hit(j, n, x, k0, k1, k2, rm, h)
}

/// Where the inverse permutation sends `x`: keep decoding until the result
/// falls below `n`.
pub open spec fn invert_spec(n: u64, x: u64, k0: u64, k1: u64, k2: u64, rm: u64, h: u64) -> u64 {
    iter_dec(walk_len(n, x, k0, k1, k2, rm, h), x, k0, k1, k2, rm, h)
}

/// The round function never exceeds the right mask.
proof fn lemma_round_mask(right: u64, key: u64, rm: u64)
    ensures
        round_of(right, key, rm) <= rm,
{
    let w = be_word(blake2b_of(be8(right) + be8(key)));
    assert((w & rm) <= rm) by (bit_vector);
}

/// The two passes are mutually inverse bijections of the domain.
proof fn lemma_enc_dec(x: u64, k0: u64, k1: u64, k2: u64, rm: u64, h: u64)
    requires
        mask_wf(rm, h),
        x < dom(h),
    ensures
        decode_spec(encode_spec(x, k0, k1, k2, rm, h), k0, k1, k2, rm, h) == x,
        encode_spec(x, k0, k1, k2, rm, h) < dom(h),
        encode_spec(decode_spec(x, k0, k1, k2, rm, h), k0, k1, k2, rm, h) == x,
        decode_spec(x, k0, k1, k2, rm, h) < dom(h),
{
    let l0 = ((x & (rm << h)) >> h) as u64;
    let r0 = (x & rm) as u64;
    assert(l0 <= rm && r0 <= rm && ((l0 << h) | r0) == x) by (bit_vector)
        requires
            l0 == ((x & (rm << h)) >> h) as u64,
            r0 == (x & rm) as u64,
            rm == ((1u64 << h) - 1) as u64,
            1 <= h <= 31,
            x < (1u64 << (2 * h)),
    ;
    // Forward pass, then show the backward pass unwinds it.
    let f0 = round_of(r0, k0, rm);
    let f1 = round_of((l0 ^ f0) as u64, k1, rm);
    let f2 = round_of((r0 ^ f1) as u64, k2, rm);
    let el3 = (r0 ^ f1) as u64;
    let er3 = ((l0 ^ f0) ^ f2) as u64;
    let y = ((el3 << h) | er3) as u64;
    assert(encode_spec(x, k0, k1, k2, rm, h) == y);
    lemma_round_mask(r0, k0, rm);
    lemma_round_mask((l0 ^ f0) as u64, k1, rm);
    lemma_round_mask((r0 ^ f1) as u64, k2, rm);
    assert(el3 <= rm && er3 <= rm && y < (1u64 << (2 * h)) && ((y & (rm << h)) >> h) == el3 && (y
        & rm) == er3) by (bit_vector)
        requires
            y == ((el3 << h) | er3) as u64,
            el3 == (r0 ^ f1) as u64,
            er3 == ((l0 ^ f0) ^ f2) as u64,
            l0 <= rm,
            r0 <= rm,
            f0 <= rm,
            f1 <= rm,
            f2 <= rm,
            rm == ((1u64 << h) - 1) as u64,
            1 <= h <= 31,
    ;
    assert(decode_spec(y, k0, k1, k2, rm, h) == x) by {
        let e1 = (er3 ^ round_of(el3, k2, rm)) as u64;
        assert(round_of(el3, k2, rm) == f2);
        assert(e1 == (l0 ^ f0) as u64) by (bit_vector)
            requires
                e1 == (((l0 ^ f0) ^ f2) ^ f2) as u64,
        ;
        let e2 = (el3 ^ round_of(e1, k1, rm)) as u64;
        assert(round_of(e1, k1, rm) == f1);
        assert(e2 == r0) by (bit_vector)
            requires
                e2 == ((r0 ^ f1) ^ f1) as u64,
        ;
        let e3 = (e1 ^ round_of(e2, k0, rm)) as u64;
        assert(round_of(e2, k0, rm) == f0);
        assert(e3 == l0) by (bit_vector)
            requires
                e3 == ((l0 ^ f0) ^ f0) as u64,
        ;
        assert(decode_spec(y, k0, k1, k2, rm, h) == ((e3 << h) | e2) as u64);
    }
    // Backward pass on x, then show the forward pass rebuilds x.
    let g2 = round_of(l0, k2, rm);
    let g1 = round_of((r0 ^ g2) as u64, k1, rm);
    let g0 = round_of((l0 ^ g1) as u64, k0, rm);
    let dl3 = ((r0 ^ g2) ^ g0) as u64;
    let dr3 = (l0 ^ g1) as u64;
    let w = ((dl3 << h) | dr3) as u64;
    assert(decode_spec(x, k0, k1, k2, rm, h) == w) by {
        let b1 = (r0 ^ g2) as u64;
        let b2 = (l0 ^ round_of(b1, k1, rm)) as u64;
        assert(round_of(b1, k1, rm) == g1);
        let b3 = (b1 ^ round_of(b2, k0, rm)) as u64;
        assert(round_of(b2, k0, rm) == g0);
        assert(decode_spec(x, k0, k1, k2, rm, h) == ((b3 << h) | b2) as u64);
    }
    lemma_round_mask(l0, k2, rm);
    lemma_round_mask((r0 ^ g2) as u64, k1, rm);
    lemma_round_mask((l0 ^ g1) as u64, k0, rm);
    assert(dl3 <= rm && dr3 <= rm && w < (1u64 << (2 * h)) && ((w & (rm << h)) >> h) == dl3 && (w
        & rm) == dr3) by (bit_vector)
        requires
            w == ((dl3 << h) | dr3) as u64,
            dl3 == ((r0 ^ g2) ^ g0) as u64,
            dr3 == (l0 ^ g1) as u64,
            l0 <= rm,
            r0 <= rm,
            g0 <= rm,
            g1 <= rm,
            g2 <= rm,
            rm == ((1u64 << h) - 1) as u64,
            1 <= h <= 31,
    ;
    assert(encode_spec(w, k0, k1, k2, rm, h) == x) by {
        let c1 = (dl3 ^ round_of(dr3, k0, rm)) as u64;
        assert(round_of(dr3, k0, rm) == g0);
        assert(c1 == (r0 ^ g2) as u64) by (bit_vector)
            requires
                c1 == (((r0 ^ g2) ^ g0) ^ g0) as u64,
        ;
        let c2 = (dr3 ^ round_of(c1, k1, rm)) as u64;
        assert(round_of(c1, k1, rm) == g1);
        assert(c2 == l0) by (bit_vector)
            requires
                c2 == ((l0 ^ g1) ^ g1) as u64,
        ;
        let c3 = (c1 ^ round_of(c2, k2, rm)) as u64;
        assert(round_of(c2, k2, rm) == g2);
        assert(c3 == r0) by (bit_vector)
            requires
                c3 == ((r0 ^ g2) ^ g2) as u64,
        ;
        assert(encode_spec(w, k0, k1, k2, rm, h) == ((c2 << h) | c3) as u64);
        assert(((c2 << h) | c3) == x) by (bit_vector)
            requires
                c3 == r0,
                c2 == l0,
                ((l0 << h) | r0) == x,
        ;
    }
}

/// Every backward iterate stays inside the domain.
proof fn lemma_iter_closed(j: nat, x: u64, k0: u64, k1: u64, k2: u64, rm: u64, h: u64)
    requires
        mask_wf(rm, h),
        x < dom(h),
    ensures
        iter_dec(j, x, k0, k1, k2, rm, h) < dom(h),
    decreases j,
{
    if j > 0 {
        lemma_iter_closed((j - 1) as nat, x, k0, k1, k2, rm, h);
        lemma_enc_dec(iter_dec((j - 1) as nat, x, k0, k1, k2, rm, h), k0, k1, k2, rm, h);
    }
}

/// Unwinding two walks in step: if iterate `i` of one start equals iterate
/// `j >= i` of another, the first start equals iterate `j - i` of the second.
proof fn lemma_iter_shift2(
    i: nat,
    j: nat,
    x1: u64,
    x2: u64,
    k0: u64,
    k1: u64,
    k2: u64,
    rm: u64,
    h: u64,
)
    requires
        mask_wf(rm, h),
        x1 < dom(h),
        x2 < dom(h),
        i <= j,
        iter_dec(i, x1, k0, k1, k2, rm, h) == iter_dec(j, x2, k0, k1, k2, rm, h),
    ensures
        x1 == iter_dec((j - i) as nat, x2, k0, k1, k2, rm, h),
    decreases i,
{
    if i > 0 {
        let a = iter_dec((i - 1) as nat, x1, k0, k1, k2, rm, h);
        let b = iter_dec((j - 1) as nat, x2, k0, k1, k2, rm, h);
        lemma_iter_closed((i - 1) as nat, x1, k0, k1, k2, rm, h);
        lemma_iter_closed((j - 1) as nat, x2, k0, k1, k2, rm, h);
        lemma_enc_dec(a, k0, k1, k2, rm, h);
        lemma_enc_dec(b, k0, k1, k2, rm, h);
        assert(a == b);
        lemma_iter_shift2((i - 1) as nat, (j - 1) as nat, x1, x2, k0, k1, k2, rm, h);
    }
}

/// Pigeonhole: starting below `n`, some backward iterate within domain-many
/// steps lands below `n` again, so the cycle walk terminates.
proof fn lemma_hit_exists(n: u64, x: u64, k0: u64, k1: u64, k2: u64, rm: u64, h: u64)
    requires
        mask_wf(rm, h),
        x < n,
        n <= dom(h),
    ensures
        exists|j: nat| first_hit(j, n, x, k0, k1, k2, rm, h),
{
    let d = dom(h) as nat;
    if !(exists|j: nat| 1 <= j <= d + 1 && iter_dec(j, x, k0, k1, k2, rm, h) < n) {
        let s = Seq::new(d + 1, |j: int| iter_dec((j + 1) as nat, x, k0, k1, k2, rm, h) as int);
        assert forall|j: int| 0 <= j < s.len() implies n <= #[trigger] s[j] < d by {
            lemma_iter_closed((j + 1) as nat, x, k0, k1, k2, rm, h);
            assert(iter_dec((j + 1) as nat, x, k0, k1, k2, rm, h) >= n);
        }
        assert(s.no_duplicates()) by {
            assert forall|p: int, q: int| 0 <= p < q < s.len() implies s[p] != s[q] by {
                if s[p] == s[q] {
                    lemma_iter_shift2((p + 1) as nat, (q + 1) as nat, x, x, k0, k1, k2, rm, h);
                    let diff = (q - p) as nat;
                    assert(iter_dec(diff, x, k0, k1, k2, rm, h) == x);
                    assert(1 <= diff <= d + 1);
                    assert(iter_dec(diff, x, k0, k1, k2, rm, h) >= n);
                }
            }
        }
        lemma_distinct_in_range(s, n as int, d as int);
        assert(false);
    }
    let jw = choose|j: nat| 1 <= j <= d + 1 && iter_dec(j, x, k0, k1, k2, rm, h) < n;
    lemma_first_of(jw, n, x, k0, k1, k2, rm, h);
}

/// Below any hit there is a first hit.
proof fn lemma_first_of(j: nat, n: u64, x: u64, k0: u64, k1: u64, k2: u64, rm: u64, h: u64)
    requires
        1 <= j,
        iter_dec(j, x, k0, k1, k2, rm, h) < n,
    ensures
        exists|f: nat| first_hit(f, n, x, k0, k1, k2, rm, h),
    decreases j,
{
    if exists|i: nat| 1 <= i < j && iter_dec(i, x, k0, k1, k2, rm, h) < n {
        let i = choose|i: nat| 1 <= i < j && iter_dec(i, x, k0, k1, k2, rm, h) < n;
        lemma_first_of(i, n, x, k0, k1, k2, rm, h);
    } else {
        assert(first_hit(j, n, x, k0, k1, k2, rm, h));
    }
}

/// Two first hits agree, so the walk length and its endpoint are functions
/// of the inputs.
proof fn lemma_first_hit_unique(
    j1: nat,
    j2: nat,
    n: u64,
    x: u64,
    k0: u64,
    k1: u64,
    k2: u64,
    rm: u64,
    h: u64,
)
    requires
        first_hit(j1, n, x, k0, k1, k2, rm, h),
        first_hit(j2, n, x, k0, k1, k2, rm, h),
    ensures
        j1 == j2,
{
    if j1 < j2 {
        assert(iter_dec(j1, x, k0, k1, k2, rm, h) >= n);
    }
    if j2 < j1 {
        assert(iter_dec(j2, x, k0, k1, k2, rm, h) >= n);
    }
}

/// The inverse permutation stays below `n` and never collides: distinct
/// starting points below `n` walk to distinct results.
pub proof fn lemma_invert_facts(n: u64, x: u64, k0: u64, k1: u64, k2: u64, rm: u64, h: u64)
    requires
        mask_wf(rm, h),
        x < n,
        n <= dom(h),
    ensures
        invert_spec(n, x, k0, k1, k2, rm, h) < n,
        first_hit(walk_len(n, x, k0, k1, k2, rm, h), n, x, k0, k1, k2, rm, h),
{
    lemma_hit_exists(n, x, k0, k1, k2, rm, h);
    let f = choose|f: nat| first_hit(f, n, x, k0, k1, k2, rm, h);
    assert(first_hit(walk_len(n, x, k0, k1, k2, rm, h), n, x, k0, k1, k2, rm, h));
}

/// Injectivity of the cycle-walking inverse on [0, n).
pub proof fn lemma_invert_injective(
    n: u64,
    x1: u64,
    x2: u64,
    k0: u64,
    k1: u64,
    k2: u64,
    rm: u64,
    h: u64,
)
    requires
        mask_wf(rm, h),
        x1 < n,
        x2 < n,
        n <= dom(h),
        x1 != x2,
    ensures
        invert_spec(n, x1, k0, k1, k2, rm, h) != invert_spec(n, x2, k0, k1, k2, rm, h),
{
    lemma_invert_facts(n, x1, k0, k1, k2, rm, h);
    lemma_invert_facts(n, x2, k0, k1, k2, rm, h);
    let j1 = walk_len(n, x1, k0, k1, k2, rm, h);
    let j2 = walk_len(n, x2, k0, k1, k2, rm, h);
    if invert_spec(n, x1, k0, k1, k2, rm, h) == invert_spec(n, x2, k0, k1, k2, rm, h) {
        if j1 <= j2 {
            lemma_invert_collide(n, x1, x2, j1, j2, k0, k1, k2, rm, h);
        } else {
            lemma_invert_collide(n, x2, x1, j2, j1, k0, k1, k2, rm, h);
        }
    }
}

/// Helper for injectivity: equal walk endpoints force equal starts.
proof fn lemma_invert_collide(
    n: u64,
    x1: u64,
    x2: u64,
    j1: nat,
    j2: nat,
    k0: u64,
    k1: u64,
    k2: u64,
    rm: u64,
    h: u64,
)
    requires
        mask_wf(rm, h),
        x1 < n,
        x2 < n,
        n <= dom(h),
        j1 <= j2,
        first_hit(j1, n, x1, k0, k1, k2, rm, h),
        first_hit(j2, n, x2, k0, k1, k2, rm, h),
        iter_dec(j1, x1, k0, k1, k2, rm, h) == iter_dec(j2, x2, k0, k1, k2, rm, h),
    ensures
        x1 == x2,
{
    lemma_iter_shift2(j1, j2, x1, x2, k0, k1, k2, rm, h);
    let diff = (j2 - j1) as nat;
    assert(x1 == iter_dec(diff, x2, k0, k1, k2, rm, h));
    if diff > 0 {
        assert(1 <= diff < j2);
        assert(iter_dec(diff, x2, k0, k1, k2, rm, h) >= n);
        assert(false);
    }
}

/// Powers of two.
pub open spec fn pow2n(k: nat) -> nat
    decreases k,
{
    if k == 0 {
        1
    } else {
        2 * pow2n((k - 1) as nat)
    }
}

proof fn lemma_pow2n_adds(a: nat, b: nat)
    ensures
        pow2n(a + b) == pow2n(a) * pow2n(b),
    decreases a,
{
    if a == 0 {
        assert(pow2n(0) == 1);
        assert(1 * pow2n(b) == pow2n(b));
    } else {
        lemma_pow2n_adds((a - 1) as nat, b);
        assert(pow2n((a + b - 1) as nat) == pow2n((a - 1) as nat) * pow2n(b));
        assert(pow2n(a + b) == 2 * pow2n((a + b - 1) as nat));
        assert(2 * (pow2n((a - 1) as nat) * pow2n(b)) == (2 * pow2n((a - 1) as nat)) * pow2n(b))
            by (nonlinear_arith);
        assert(pow2n(a) == 2 * pow2n((a - 1) as nat));
    }
}

pub proof fn lemma_pow2n_values()
    ensures
        pow2n(62) == 0x4000000000000000,
        pow2n(31) == 0x80000000,
        pow2n(64) == 0x10000000000000000,
{
    assert(pow2n(0) == 1);
    assert(pow2n(1) == 2);
    assert(pow2n(2) == 4);
    assert(pow2n(3) == 8);
    assert(pow2n(4) == 16);
    assert(pow2n(5) == 32);
    assert(pow2n(6) == 64);
    assert(pow2n(7) == 128);
    assert(pow2n(8) == 256);
    lemma_pow2n_adds(8, 8);
    assert(pow2n(16) == 0x10000);
    lemma_pow2n_adds(16, 8);
    assert(pow2n(24) == 0x1000000);
    lemma_pow2n_adds(24, 7);
    assert(pow2n(31) == 0x1000000 * 0x80);
    lemma_pow2n_adds(31, 31);
    assert(pow2n(62) == 0x80000000 * 0x80000000);
    lemma_pow2n_adds(62, 2);
    assert(pow2n(2) == 4);
    assert(pow2n(64) == 0x4000000000000000 * 4);
}

proof fn lemma_pow2n_mono(a: nat, b: nat)
    requires
        a <= b,
    ensures
        pow2n(a) <= pow2n(b),
    decreases b,
{
    if a < b {
        lemma_pow2n_mono(a, (b - 1) as nat);
        assert(pow2n(b) == 2 * pow2n((b - 1) as nat));
    }
}

/// A shift by `k` bits is the `k`-th power of two.
pub proof fn lemma_shl_pow2n(k: u64)
    requires
        k <= 63,
    ensures
        (1u64 << k) as nat == pow2n(k as nat),
    decreases k,
{
    if k == 0 {
        assert(1u64 << 0u64 == 1) by (bit_vector);
    } else {
        lemma_shl_pow2n((k - 1) as u64);
        let km = (k - 1) as u64;
        assert((1u64 << km) < 0x8000000000000000) by {
            lemma_pow2n_values();
            lemma_pow2n_mono(km as nat, 62);
        }
        assert(1u64 << k == 2 * (1u64 << km)) by (bit_vector)
            requires
                1 <= k <= 63,
                km == (k - 1) as u64,
                (1u64 << km) < 0x8000000000000000,
        ;
    }
}

/// The number of half-bits the table is built with: the least `h >= 1` whose
/// power-of-four domain covers `n`, capped at 31.
pub open spec fn feistel_h_from(n: nat, h: nat) -> nat
    decreases 32 - h,
    when h <= 31
{
    if h >= 31 {
        31
    } else if pow2n(2 * h) >= n {
        h
    } else {
        feistel_h_from(n, h + 1)
    }
}

pub open spec fn feistel_h(n: nat) -> nat {
    feistel_h_from(n, 1)
}

/// Trigger-friendly shape of "the domain with `i` half-bits is too small".
spec fn dom_short(i: nat, n: nat) -> bool {
    pow2n(2 * i) < n
}

proof fn lemma_h_from_walk(n: nat, h: nat, cap: nat)
    requires
        1 <= h <= cap <= 31,
        forall|i: nat| h <= i < cap ==> #[trigger] dom_short(i, n),
        pow2n(2 * cap) >= n || cap == 31,
    ensures
        feistel_h_from(n, h) == cap,
    decreases 32 - h,
{
    if h == cap {
        if h < 31 {
            assert(pow2n(2 * h) >= n);
        }
    } else {
        assert(dom_short(h, n));
        assert(pow2n(2 * h) < n);
        lemma_h_from_walk(n, h + 1, cap);
    }
}

/// The masks and half-bit count of the permutation over `[0, n)`.
pub struct FeistelPre {
    /// Mask of the high half of an index.
    pub left_mask: u64,
    /// Mask of the low half of an index.
    pub right_mask: u64,
    /// Width in bits of each half.
    pub half_bits: u64,
}

/// The precomputed table matches `n`: the half width is the canonical one for
/// `n`, the masks derive from it, and the domain covers `n`.
pub open spec fn pre_wf(pre: FeistelPre, n: u64) -> bool {
    pre.half_bits == feistel_h(n as nat) && mask_wf(pre.right_mask, pre.half_bits)
        && pre.left_mask == (pre.right_mask << pre.half_bits) as u64 && n <= dom(pre.half_bits)
}

/// Finds the smallest power-of-four domain that covers `num_elements`, and
/// the masks that split its indices in half.
pub fn feistel_precompute(num_elements: u64) -> (pre: FeistelPre)
    requires
        num_elements <= 0x4000000000000000,
    ensures
        pre_wf(pre, num_elements),
{
    proof {
        lemma_pow2n_values();
    }
    let mut next_pow4: u64 = 4;
    let mut log4: u64 = 1;
    proof {
        assert(pow2n(0) == 1);
        assert(pow2n(1) == 2);
        assert(pow2n(2) == 4);
    }
    while next_pow4 < num_elements
        invariant
            1 <= log4 <= 31,
            next_pow4 as nat == pow2n(2 * log4 as nat),
            num_elements <= 0x4000000000000000,
            forall|i: nat| 1 <= i < log4 as nat ==> #[trigger] dom_short(i, num_elements as nat),
        decreases 31 - log4,
    {
        proof {
            lemma_pow2n_values();
            if log4 == 31 {
                assert(pow2n(62) >= num_elements);
                assert(false);
            }
            lemma_pow2n_mono(2 * (log4 as nat) + 2, 62);
            assert(pow2n(2 * (log4 as nat) + 2) == 2 * pow2n(2 * (log4 as nat) + 1));
            assert(pow2n(2 * (log4 as nat) + 1) == 2 * pow2n(2 * (log4 as nat)));
            assert forall|i: nat| 1 <= i < (log4 + 1) as nat implies #[trigger] dom_short(
                i,
                num_elements as nat,
            ) by {
                if i == log4 as nat {
                    assert(pow2n(2 * i) == next_pow4 as nat);
                } else {
                    assert(dom_short(i, num_elements as nat));
                }
            }
        }
        next_pow4 = next_pow4 * 4;
        log4 = log4 + 1;
    }
    proof {
        lemma_h_from_walk(num_elements as nat, 1, log4 as nat);
        lemma_shl_pow2n(log4);
        lemma_shl_pow2n((2 * log4) as u64);
        lemma_pow2n_values();
        lemma_pow2n_mono(log4 as nat, 62);
    }
    proof {
        assert(1u64 << log4 >= 1) by (bit_vector)
            requires
                log4 <= 31,
        ;
    }
    let right_mask = (1u64 << log4) - 1;
    let left_mask = right_mask << log4;
    FeistelPre { left_mask, right_mask, half_bits: log4 }
}

/// One Feistel round: the masked top word of the BLAKE2b digest of the right
/// half and the round key, both big-endian.
fn round_fn(right: u64, key: u64, rm: u64) -> (r: u64)
    ensures
        r == round_of(right, key, rm),
{
    let mut data: Vec<u8> = Vec::new();
    data.push(#[verifier::truncate] ((right >> 56) as u8));
    data.push(#[verifier::truncate] ((right >> 48) as u8));
    data.push(#[verifier::truncate] ((right >> 40) as u8));
    data.push(#[verifier::truncate] ((right >> 32) as u8));
    data.push(#[verifier::truncate] ((right >> 24) as u8));
    data.push(#[verifier::truncate] ((right >> 16) as u8));
    data.push(#[verifier::truncate] ((right >> 8) as u8));
    data.push(#[verifier::truncate] (right as u8));
    data.push(#[verifier::truncate] ((key >> 56) as u8));
    data.push(#[verifier::truncate] ((key >> 48) as u8));
    data.push(#[verifier::truncate] ((key >> 40) as u8));
    data.push(#[verifier::truncate] ((key >> 32) as u8));
    data.push(#[verifier::truncate] ((key >> 24) as u8));
    data.push(#[verifier::truncate] ((key >> 16) as u8));
    data.push(#[verifier::truncate] ((key >> 8) as u8));
    data.push(#[verifier::truncate] (key as u8));
    proof {
        assert(data@ =~= be8(right) + be8(key));
    }
    let hash = blake2b_hash(&data);
    let w = (hash[0] as u64) << 56 | (hash[1] as u64) << 48 | (hash[2] as u64) << 40 | (
    hash[3] as u64) << 32 | (hash[4] as u64) << 24 | (hash[5] as u64) << 16 | (hash[6] as u64)
        << 8 | (hash[7] as u64);
    w & rm
}

/// One backward pass over an index.
fn decode_step(x: u64, k0: u64, k1: u64, k2: u64, rm: u64, h: u64) -> (r: u64)
    requires
        h <= 31,
    ensures
        r == decode_spec(x, k0, k1, k2, rm, h),
{
    let l0 = (x & (rm << h)) >> h;
    let r0 = x & rm;
    let l1 = r0 ^ round_fn(l0, k2, rm);
    let r1 = l0;
    let l2 = r1 ^ round_fn(l1, k1, rm);
    let r2 = l1;
    let l3 = r2 ^ round_fn(l2, k0, rm);
    let r3 = l2;
    (l3 << h) | r3
}

/// Sends `index` to its place under the inverse permutation of
/// `[0, num_elements)`: decode, then walk until the result is in range.
pub fn feistel_invert(num_elements: u64, index: u64, k0: u64, k1: u64, k2: u64, pre: &FeistelPre) -> (r:
    u64)
    requires
        pre_wf(*pre, num_elements),
        index < num_elements,
    ensures
        r == invert_spec(num_elements, index, k0, k1, k2, pre.right_mask, pre.half_bits),
        r < num_elements,
{
    let rm = pre.right_mask;
    let h = pre.half_bits;
    proof {
        lemma_invert_facts(num_elements, index, k0, k1, k2, rm, h);
    }
    let ghost jw = walk_len(num_elements, index, k0, k1, k2, rm, h);
    let mut u = decode_step(index, k0, k1, k2, rm, h);
    let ghost mut j: nat = 1;
    proof {
        assert(iter_dec(0, index, k0, k1, k2, rm, h) == index);
        assert(iter_dec(1, index, k0, k1, k2, rm, h) == decode_spec(index, k0, k1, k2, rm, h));
    }
    while u >= num_elements
        invariant
            mask_wf(rm, h),
            index < num_elements,
            num_elements <= dom(h),
            u == iter_dec(j, index, k0, k1, k2, rm, h),
            1 <= j <= jw,
            first_hit(jw, num_elements, index, k0, k1, k2, rm, h),
            forall|i: nat| 1 <= i < j ==> iter_dec(i, index, k0, k1, k2, rm, h) >= num_elements,
        decreases jw - j,
    {
        proof {
            assert(j != jw);
        }
        u = decode_step(u, k0, k1, k2, rm, h);
        proof {
            j = j + 1;
            assert(u == iter_dec(j, index, k0, k1, k2, rm, h));
        }
    }
    proof {
        assert(first_hit(j, num_elements, index, k0, k1, k2, rm, h));
        lemma_first_hit_unique(
            j,
            walk_len(num_elements, index, k0, k1, k2, rm, h),
            num_elements,
            index,
            k0,
            k1,
            k2,
            rm,
            h,
        );
    }
    u
}

} // verus!
