use vstd::prelude::*;
use crate::feistel::{
    FeistelPre, feistel_h, feistel_invert, feistel_precompute, invert_spec, pre_wf,
};

verus! {

// The dependency graph: a bucket-sampled DRG layered with a Feistel-expander
// edge set, plus the reverse expander adjacency used on odd layers.

/// Abstract state of a ChaCha generator, as a sequence of words.
pub uninterp spec fn chacha_state(r: rand::ChaChaRng) -> Seq<u32>;

/// What seeding a ChaCha generator yields: a function of the seed words.
pub uninterp spec fn chacha_init(seed: Seq<u32>) -> Seq<u32>;

/// What one 64-bit draw yields: the value and the state after it, functions
/// of the state alone.
pub uninterp spec fn chacha_u64(st: Seq<u32>) -> (u64, Seq<u32>);

/// What one bounded draw yields: the value and the state after it, functions
/// of the state and the bounds alone.
pub uninterp spec fn chacha_range(st: Seq<u32>, low: u64, high: u64) -> (u64, Seq<u32>);

#[verifier::external_type_specification]
#[verifier::external_body]
pub struct ExChaChaRng(rand::ChaChaRng);

/// Relies on rand 0.4's ChaChaRng::from_seed: the generator state is a
/// deterministic function of the seed words alone.
#[verifier::external_body]
fn chacha_from_seed(seed: &Vec<u32>) -> (r: rand::ChaChaRng)
    requires
        seed@.len() == 8,
    ensures
        chacha_state(r) == chacha_init(seed@),
{
    <rand::ChaChaRng as rand::SeedableRng<&[u32]>>::from_seed(seed.as_slice())
}

/// Relies on rand 0.4's Rng::gen::<u64>: the next word of the ChaCha stream,
/// a deterministic function of the generator state.
#[verifier::external_body]
fn chacha_gen_u64(rng: &mut rand::ChaChaRng) -> (r: u64)
    ensures
        r == chacha_u64(chacha_state(*old(rng))).0,
        chacha_state(*final(rng)) == chacha_u64(chacha_state(*old(rng))).1,
{
    rand::Rng::gen::<u64>(rng)
}

/// Relies on rand 0.4's Rng::gen_range::<u64>: a value in [low, high),
/// deterministic in the generator state and the bounds; panics when
/// low >= high, so that case is excluded.
#[verifier::external_body]
fn chacha_gen_range(rng: &mut rand::ChaChaRng, low: u64, high: u64) -> (r: u64)
    requires
        low < high,
    ensures
        low <= r < high,
        r == chacha_range(chacha_state(*old(rng)), low, high).0,
        chacha_state(*final(rng)) == chacha_range(chacha_state(*old(rng)), low, high).1,
{
    rand::Rng::gen_range::<u64>(rng, low, high)
}

/// Floor of the base-two logarithm.
pub open spec fn log2_floor(n: nat) -> nat
    decreases n,
{
    if n < 2 {
        0
    } else {
        1 + log2_floor(n / 2)
    }
}

fn ilog2(n: u64) -> (r: u64)
    requires
        n >= 1,
    ensures
        r == log2_floor(n as nat),
        r <= 63,
{
    let mut v: u64 = n;
    let mut r: u64 = 0;
    while v >= 2
        invariant
            v >= 1,
            r <= 63,
            log2_floor(n as nat) == r + log2_floor(v as nat),
            v < 0x10000000000000000,
            r == 0 ==> v == n,
            r >= 1 ==> v <= n / 2,
        decreases v,
    {
        proof {
            if r == 63 {
                lemma_log2_small(v as nat, r as nat, n as nat);
            }
        }
        v = v / 2;
        r = r + 1;
    }
    r
}

/// Halving at least once per doubling: 63 halvings empty any 64-bit value.
proof fn lemma_log2_small(v: nat, r: nat, n: nat)
    requires
        v >= 2,
        n < 0x10000000000000000,
        log2_floor(n) == r + log2_floor(v),
    ensures
        r <= 62,
{
    lemma_log2_bound(n);
}

/// log2 of a 64-bit value is at most 63.
proof fn lemma_log2_bound(n: nat)
    requires
        n < 0x10000000000000000,
    ensures
        log2_floor(n) <= 63,
{
    crate::feistel::lemma_pow2n_values();
    lemma_log2_mono_bound(n, 63);
}

/// Values below 2^(k+1) have log2 at most k.
proof fn lemma_log2_mono_bound(n: nat, k: nat)
    requires
        n < crate::feistel::pow2n(k + 1),
    ensures
        log2_floor(n) <= k,
    decreases k,
{
    if n < 2 {
    } else {
        if k == 0 {
            assert(crate::feistel::pow2n(0) == 1);
            assert(crate::feistel::pow2n(1) == 2);
        } else {
            assert(crate::feistel::pow2n(k + 1) == 2 * crate::feistel::pow2n(k));
            lemma_log2_mono_bound(n / 2, (k - 1) as nat);
        }
    }
}

/// Inserting into a sorted run, keeping order.
pub open spec fn sorted_insert(s: Seq<u64>, x: u64) -> Seq<u64>
    decreases s.len(),
{
    if s.len() == 0 {
        seq![x]
    } else if x <= s[0] {
        seq![x] + s
    } else {
        seq![s[0]] + sorted_insert(s.drop_first(), x)
    }
}

/// Left-to-right insertion sort.
pub open spec fn sort_push(acc: Seq<u64>, s: Seq<u64>) -> Seq<u64>
    decreases s.len(),
{
    if s.len() == 0 {
        acc
    } else {
        sort_push(sorted_insert(acc, s[0]), s.drop_first())
    }
}

/// The ascending arrangement of a run of draws.
pub open spec fn sort_seq(s: Seq<u64>) -> Seq<u64> {
    sort_push(Seq::empty(), s)
}

proof fn lemma_sorted_insert_bound(s: Seq<u64>, x: u64, b: u64)
    requires
        forall|i: int| 0 <= i < s.len() ==> s[i] < b,
        x < b,
    ensures
        sorted_insert(s, x).len() == s.len() + 1,
        forall|i: int| 0 <= i < s.len() + 1 ==> sorted_insert(s, x)[i] < b,
    decreases s.len(),
{
    if s.len() == 0 {
    } else if x <= s[0] {
    } else {
        assert(forall|i: int| 0 <= i < s.drop_first().len() ==> s.drop_first()[i] < b);
        lemma_sorted_insert_bound(s.drop_first(), x, b);
    }
}

proof fn lemma_sort_push_bound(acc: Seq<u64>, s: Seq<u64>, b: u64)
    requires
        forall|i: int| 0 <= i < acc.len() ==> acc[i] < b,
        forall|i: int| 0 <= i < s.len() ==> s[i] < b,
    ensures
        sort_push(acc, s).len() == acc.len() + s.len(),
        forall|i: int| 0 <= i < sort_push(acc, s).len() ==> sort_push(acc, s)[i] < b,
    decreases s.len(),
{
    if s.len() == 0 {
    } else {
        lemma_sorted_insert_bound(acc, s[0], b);
        assert(forall|i: int| 0 <= i < s.drop_first().len() ==> s.drop_first()[i] < b);
        lemma_sort_push_bound(sorted_insert(acc, s[0]), s.drop_first(), b);
    }
}

/// Splices `x` into a sorted vector, mirroring `sorted_insert`.
fn insert_sorted(v: &Vec<u64>, x: u64) -> (r: Vec<u64>)
    ensures
        r@ == sorted_insert(v@, x),
    decreases v@.len(),
{
    let mut out: Vec<u64> = Vec::new();
    let n = v.len();
    let mut i: usize = 0;
    while i < n && v[i] < x
        invariant
            i <= n,
            n == v@.len(),
            out@ == v@.take(i as int),
            forall|t: int| 0 <= t < i ==> v@[t] < x,
        decreases n - i,
    {
        out.push(v[i]);
        i = i + 1;
    }
    let ghost p = i as int;
    out.push(x);
    let mut k: usize = i;
    while k < n
        invariant
            i <= k <= n,
            n == v@.len(),
            out@ == v@.take(p) + seq![x] + v@.subrange(p, k as int),
            p == i as int,
        decreases n - k,
    {
        out.push(v[k]);
        k = k + 1;
        proof {
            assert(out@ =~= v@.take(p) + seq![x] + v@.subrange(p, k as int));
        }
    }
    proof {
        assert(out@ =~= v@.take(p) + seq![x] + v@.subrange(p, n as int));
        lemma_sorted_insert_split(v@, x, p);
    }
    out
}

/// `sorted_insert` places `x` before the first entry that is not below it.
proof fn lemma_sorted_insert_split(s: Seq<u64>, x: u64, p: int)
    requires
        0 <= p <= s.len(),
        forall|t: int| 0 <= t < p ==> s[t] < x,
        p < s.len() ==> !(s[p] < x),
    ensures
        sorted_insert(s, x) == s.take(p) + seq![x] + s.subrange(p, s.len() as int),
    decreases s.len(),
{
    if s.len() == 0 {
        assert(sorted_insert(s, x) =~= s.take(p) + seq![x] + s.subrange(p, 0));
    } else if p == 0 {
        assert(x <= s[0]);
        assert(sorted_insert(s, x) =~= s.take(0) + seq![x] + s.subrange(0, s.len() as int));
    } else {
        assert(s[0] < x);
        let rest = s.drop_first();
        assert(forall|t: int| 0 <= t < p - 1 ==> rest[t] < x);
        lemma_sorted_insert_split(rest, x, p - 1);
        assert(sorted_insert(s, x) =~= seq![s[0]] + (rest.take(p - 1) + seq![x] + rest.subrange(
            p - 1,
            rest.len() as int,
        )));
        assert(seq![s[0]] + (rest.take(p - 1) + seq![x] + rest.subrange(p - 1, rest.len() as int))
            =~= s.take(p) + seq![x] + s.subrange(p, s.len() as int));
    }
}

/// Sorts a run of draws ascending.
fn sort_vec(v: &Vec<u64>) -> (r: Vec<u64>)
    ensures
        r@ == sort_seq(v@),
{
    let mut out: Vec<u64> = Vec::new();
    let mut i: usize = 0;
    while i < v.len()
        invariant
            i <= v@.len(),
            out@ == sort_push(Seq::empty(), v@.take(i as int)),
        decreases v@.len() - i,
    {
        let ins = insert_sorted(&out, v[i]);
        proof {
            lemma_sort_push_snoc(Seq::empty(), v@.take(i as int), v@[i as int]);
            assert(v@.take(i as int).push(v@[i as int]) =~= v@.take(i as int + 1));
        }
        out = ins;
        i = i + 1;
    }
    proof {
        assert(v@.take(v@.len() as int) =~= v@);
    }
    out
}

/// Folding one more element into an insertion sort.
proof fn lemma_sort_push_snoc(acc: Seq<u64>, s: Seq<u64>, x: u64)
    ensures
        sort_push(acc, s.push(x)) == sorted_insert(sort_push(acc, s), x),
    decreases s.len(),
{
    if s.len() == 0 {
        assert(s.push(x).drop_first() =~= Seq::<u64>::empty());
        assert(sort_push(acc, s.push(x)) == sort_push(sorted_insert(acc, x), Seq::empty()));
    } else {
        assert(s.push(x).drop_first() =~= s.drop_first().push(x));
        assert(s.push(x)[0] == s[0]);
        lemma_sort_push_snoc(sorted_insert(acc, s[0]), s.drop_first(), x);
    }
}

/// One bucket-sample draw: the slot's parent and the generator state after
/// it. Mirrors the draw pattern exactly: one word for the bucket, one bounded
/// draw for the distance.
pub open spec fn drg_one(st: Seq<u32>, node: nat, m: nat, k: nat) -> (u64, Seq<u32>) {
    let logi = log2_floor(node * m);
    let d1 = chacha_u64(st);
    let j = d1.0 as nat % logi;
    let jj = if node * m + k < crate::feistel::pow2n(j + 1) {
        node * m + k
    } else {
        crate::feistel::pow2n(j + 1)
    };
    let low = if jj / 2 > 2 {
        jj / 2
    } else {
        2
    };
    let d2 = chacha_range(d1.1, low as u64, (jj + 1) as u64);
    let back = d2.0;
    let out = (node * m + k - back as nat) as nat / m;
    let p = if out == node {
        (node - 1) as nat
    } else {
        out
    };
    (p as u64, d2.1)
}

/// The unsorted bucket-sample draws from slot `k` on.
pub open spec fn drg_draws(st: Seq<u32>, node: nat, m: nat, k: nat) -> (Seq<u64>, Seq<u32>)
    decreases m - k,
    when k <= m
{
    if k >= m {
        (Seq::empty(), st)
    } else {
        let one = drg_one(st, node, m, k);
        let rest = drg_draws(one.1, node, m, k + 1);
        (seq![one.0] + rest.0, rest.1)
    }
}

/// The seed words a node's generator starts from: the graph seed followed by
/// the node index.
pub open spec fn node_seed(seed: Seq<u32>, node: nat) -> Seq<u32> {
    seed.push(node as u32)
}

/// The DRG parent list of a node: all zeros for the first two nodes, and the
/// sorted bucket-sample draws otherwise.
pub open spec fn drg_parents(seed: Seq<u32>, node: nat, m: nat) -> Seq<u64> {
    if node < 2 {
        Seq::new(m, |i| 0u64)
    } else {
        sort_seq(drg_draws(chacha_init(node_seed(seed, node)), node, m, 0).0)
    }
}

/// Bucket sampling for one node. The parents are sorted ascending, and every
/// parent of a node past the first two is a strictly earlier node.
fn bucketsample_parents(seed: &Vec<u32>, node: usize, m: usize) -> (r: Vec<usize>)
    requires
        seed@.len() == 7,
        (node as int) * (m as int) + (m as int) <= 0xffffffffffffffff,
    ensures
        r@.len() == m,
        r@.map_values(|p: usize| p as u64) == drg_parents(seed@, node as nat, m as nat),
        forall|i: int| 0 <= i < m ==> (r@[i] as int) < (if node < 2 { 1int } else { node as int }),
{
    let mut out: Vec<usize> = Vec::new();
    if node < 2 {
        let mut k: usize = 0;
        while k < m
            invariant
                k <= m,
                out@.len() == k,
                forall|i: int| 0 <= i < k ==> out@[i] == 0usize,
            decreases m - k,
        {
            out.push(0);
            k = k + 1;
        }
        proof {
            assert(out@.map_values(|p: usize| p as u64) =~= drg_parents(
                seed@,
                node as nat,
                m as nat,
            ));
            assert(forall|i: int| 0 <= i < m ==> (out@[i] as int) < 1);
        }
        return out;
    }
    let mut seed8: Vec<u32> = Vec::new();
    let mut si: usize = 0;
    while si < 7
        invariant
            si <= 7,
            seed@.len() == 7,
            seed8@ == seed@.take(si as int),
        decreases 7 - si,
    {
        seed8.push(seed[si]);
        si = si + 1;
    }
    seed8.push(#[verifier::truncate] (node as u32));
    proof {
        assert(seed8@ =~= node_seed(seed@, node as nat));
    }
    if m == 0 {
        proof {
            assert(out@.map_values(|p: usize| p as u64) =~= drg_parents(
                seed@,
                node as nat,
                m as nat,
            ));
        }
        return out;
    }
    let mut rng = chacha_from_seed(&seed8);
    let ghost st0 = chacha_init(seed8@);
    let node64 = node as u64;
    let m64 = m as u64;
    let mut draws: Vec<u64> = Vec::new();
    let mut k: usize = 0;
    let nm = node64 * m64;
    proof {
        assert(nm >= 2) by (nonlinear_arith)
            requires
                nm == node64 * m64,
                node64 >= 2,
                m64 >= 1,
        ;
    }
    let logi = ilog2(nm);
    proof {
        assert(log2_floor(nm as nat) >= 1);
    }
    while k < m
        invariant
            k <= m,
            m >= 1,
            node >= 2,
            node64 == node as u64,
            m64 == m as u64,
            nm == node64 * m64,
            nm >= 2,
            (node as int) * (m as int) + (m as int) <= 0xffffffffffffffff,
            logi == log2_floor((node as nat) * (m as nat)),
            1 <= logi <= 63,
            draws@.len() == k,
            draws@ + drg_draws(chacha_state(rng), node as nat, m as nat, k as nat).0 == drg_draws(
                st0,
                node as nat,
                m as nat,
                0,
            ).0,
            forall|i: int| 0 <= i < k ==> (draws@[i] as int) < node as int,
        decreases m - k,
    {
        let ghost st_in = chacha_state(rng);
        let ghost one = drg_one(st_in, node as nat, m as nat, k as nat);
        let x = chacha_gen_u64(&mut rng);
        let j = x % logi;
        let pw = 1u64 << (j + 1);
        proof {
            crate::feistel::lemma_shl_pow2n((j + 1) as u64);
        }
        let k64 = k as u64;
        let jj = if nm + k64 < pw {
            nm + k64
        } else {
            pw
        };
        let low = if jj / 2 > 2 {
            jj / 2
        } else {
            2
        };
        proof {
            assert(pw >= 2) by (bit_vector)
                requires
                    pw == 1u64 << (j + 1),
                    j + 1 <= 63,
                    j < 64,
            ;
            assert(jj >= 2);
            assert(low <= jj);
        }
        let back = chacha_gen_range(&mut rng, low, jj + 1);
        let out_q = (nm + k64 - back) / m64;
        let p = if out_q == node64 {
            node64 - 1
        } else {
            out_q
        };
        proof {
            // the drawn distance keeps every parent at or before the node
            assert(out_q <= node64) by (nonlinear_arith)
                requires
                    out_q == ((nm + k64 - back) as int) / (m64 as int),
                    nm == node64 * m64,
                    2 <= back <= nm + k64,
                    k64 < m64,
                    m64 >= 1,
                    node64 >= 2,
            ;
            assert(p < node64);
            assert((p, chacha_state(rng)) == one);
            lemma_drg_draws_step(st_in, node as nat, m as nat, k as nat);
            assert(draws@.push(p) + drg_draws(chacha_state(rng), node as nat, m as nat, (k
                + 1) as nat).0 =~= draws@ + drg_draws(st_in, node as nat, m as nat, k as nat).0);
        }
        draws.push(p);
        k = k + 1;
    }
    proof {
        assert(drg_draws(chacha_state(rng), node as nat, m as nat, k as nat).0 =~= Seq::<
            u64,
        >::empty());
        assert(draws@ + Seq::<u64>::empty() =~= draws@);
        assert(draws@ == drg_draws(st0, node as nat, m as nat, 0).0);
    }
    let sorted = sort_vec(&draws);
    proof {
        lemma_sort_push_bound(Seq::empty(), draws@, node64);
    }
    let mut i: usize = 0;
    while i < sorted.len()
        invariant
            i <= sorted@.len(),
            out@.len() == i,
            forall|t: int| 0 <= t < sorted@.len() ==> sorted@[t] < node as u64,
            node >= 2,
            forall|t: int| 0 <= t < i ==> out@[t] as u64 == sorted@[t] && (out@[t] as int)
                < node as int,
        decreases sorted@.len() - i,
    {
        let val = sorted[i];
        out.push(val as usize);
        i = i + 1;
    }
    proof {
        assert(out@.map_values(|p: usize| p as u64) =~= sorted@);
        assert(sorted@ == drg_parents(seed@, node as nat, m as nat));
        assert forall|i: int| 0 <= i < m implies (out@[i] as int) < node as int by {
            assert(out@[i] as u64 == sorted@[i] && (out@[i] as int) < node as int);
        }
    }
    out
}

/// Unrolling one slot of the draw run.
proof fn lemma_drg_draws_step(st: Seq<u32>, node: nat, m: nat, k: nat)
    requires
        k < m,
    ensures
        drg_draws(st, node, m, k).0 == seq![drg_one(st, node, m, k).0] + drg_draws(
            drg_one(st, node, m, k).1,
            node,
            m,
            k + 1,
        ).0,
        drg_draws(st, node, m, k).1 == drg_draws(drg_one(st, node, m, k).1, node, m, k + 1).1,
{
}

/// The right mask the expander permutation uses for `nd` indices.
pub open spec fn exp_mask(nd: u64) -> u64 {
    ((1u64 << (feistel_h(nd as nat) as u64)) - 1) as u64
}

/// Where the inverse expander permutation sends an index, with the fixed
/// round keys 1, 2, 3.
pub open spec fn exp_inv(nd: u64, idx: u64) -> u64 {
    invert_spec(nd, idx, 1, 2, 3, exp_mask(nd), feistel_h(nd as nat) as u64)
}

/// The expander parents of a node from slot `i` on: inverse-permute each of
/// the node's `d` slots and keep the quotients that point at earlier nodes.
pub open spec fn exp_loop_spec(nd: u64, d: u64, node: u64, i: nat) -> Seq<usize>
    decreases d as nat - i,
    when i <= d as nat && d > 0
{
    if i >= d as nat {
        Seq::empty()
    } else {
        let idx = (node * d + i) as u64;
        let p = exp_inv(nd, idx) / d;
        (if p < node {
            seq![p as usize]
        } else {
            Seq::empty()
        }) + exp_loop_spec(nd, d, node, i + 1)
    }
}

/// The expander parent list of a node.
pub open spec fn exp_parents_spec(nodes: u64, d: u64, node: u64) -> Seq<usize> {
    if d == 0 {
        Seq::empty()
    } else {
        exp_loop_spec((nodes * d) as u64, d, node, 0)
    }
}

/// Expander sampling for one node: every kept parent is an earlier node, and
/// at most `d` parents are kept.
fn expander_parents(nodes: usize, d: usize, node: usize, pre: &FeistelPre) -> (r: Vec<usize>)
    requires
        node < nodes,
        (nodes as int) * (d as int) <= 0x4000000000000000,
        pre_wf(*pre, ((nodes as u64) * (d as u64)) as u64),
    ensures
        r@ == exp_parents_spec(nodes as u64, d as u64, node as u64),
        forall|i: int| 0 <= i < r@.len() ==> (r@[i] as int) < node as int,
        r@.len() <= d,
        node == 0 ==> r@.len() == 0,
{
    let mut out: Vec<usize> = Vec::new();
    if d == 0 {
        proof {
            assert(out@ =~= exp_parents_spec(nodes as u64, d as u64, node as u64));
        }
        return out;
    }
    let node64 = node as u64;
    let d64 = d as u64;
    let nd = (nodes as u64) * d64;
    let mut i: usize = 0;
    while i < d
        invariant
            i <= d,
            d >= 1,
            node < nodes,
            node64 == node as u64,
            d64 == d as u64,
            nd == (nodes as u64) * d64,
            nd <= 0x4000000000000000,
            pre_wf(*pre, nd),
            out@.len() <= i,
            forall|t: int| 0 <= t < out@.len() ==> (out@[t] as int) < node as int,
            out@ + exp_loop_spec(nd, d64, node64, i as nat) == exp_loop_spec(nd, d64, node64, 0),
        decreases d - i,
    {
        proof {
            assert(node64 * d64 + (i as u64) < nd) by (nonlinear_arith)
                requires
                    nd == (nodes as u64) * d64,
                    node64 < nodes as u64,
                    (i as u64) < d64,
            ;
        }
        let idx = node64 * d64 + i as u64;
        let v = feistel_invert(nd, idx, 1, 2, 3, pre);
        let p64 = v / d64;
        let ghost before = out@;
        if p64 < node64 {
            out.push(p64 as usize);
        }
        proof {
            assert(exp_loop_spec(nd, d64, node64, i as nat) == (if p64 < node64 {
                seq![p64 as usize]
            } else {
                Seq::<usize>::empty()
            }) + exp_loop_spec(nd, d64, node64, i as nat + 1));
            assert(out@ + exp_loop_spec(nd, d64, node64, (i + 1) as nat) =~= before
                + exp_loop_spec(nd, d64, node64, i as nat));
        }
        i = i + 1;
    }
    proof {
        assert(exp_loop_spec(nd, d64, node64, d as nat) =~= Seq::<usize>::empty());
        assert(out@ + Seq::<usize>::empty() =~= out@);
        if node == 0 && out@.len() > 0 {
            assert((out@[0] as int) < 0);
        }
    }
    out
}

/// Occurrences of `x` in a parent list.
pub open spec fn cnt(s: Seq<usize>, x: usize) -> nat
    decreases s.len(),
{
    if s.len() == 0 {
        0
    } else {
        (if s[0] == x {
            1nat
        } else {
            0nat
        }) + cnt(s.drop_first(), x)
    }
}

proof fn lemma_cnt_snoc(s: Seq<usize>, y: usize, x: usize)
    ensures
        cnt(s.push(y), x) == cnt(s, x) + (if y == x {
            1nat
        } else {
            0nat
        }),
    decreases s.len(),
{
    if s.len() == 0 {
        assert(s.push(y).drop_first() =~= Seq::<usize>::empty());
        assert(cnt(s.push(y).drop_first(), x) == 0);
        assert(cnt(s, x) == 0);
        assert(s.push(y)[0] == y);
    } else {
        assert(s.push(y).drop_first() =~= s.drop_first().push(y));
        assert(s.push(y)[0] == s[0]);
        lemma_cnt_snoc(s.drop_first(), y, x);
    }
}

proof fn lemma_cnt_positive(s: Seq<usize>, t: int, x: usize)
    requires
        0 <= t < s.len(),
        s[t] == x,
    ensures
        cnt(s, x) >= 1,
    decreases s.len(),
{
    if t == 0 {
    } else {
        lemma_cnt_positive(s.drop_first(), t - 1, x);
    }
}

/// The reverse adjacency of target `j` built from the forward lists of the
/// first `n` nodes: node `i` appears once per slot of its forward list that
/// holds `j`, nodes in ascending order.
pub open spec fn rev_contrib(nodes: u64, d: u64, j: usize, n: nat) -> Seq<usize>
    decreases n,
{
    if n == 0 {
        Seq::empty()
    } else {
        rev_contrib(nodes, d, j, (n - 1) as nat) + Seq::new(
            cnt(exp_parents_spec(nodes, d, (n - 1) as u64), j),
            |t: int| (n - 1) as usize,
        )
    }
}

/// A dependency graph: bucket-sampled DRG parents, Feistel-expander parents,
/// and the reverse expander adjacency, over `nodes` node indices.
#[derive(Debug, PartialEq, Eq)]
pub struct Graph {
    /// Total number of nodes.
    pub nodes: usize,
    base_degree: usize,
    expansion_degree: usize,
    seed: [u32; 7],
    bas: Vec<Vec<usize>>,
    exp: Vec<Vec<usize>>,
    exp_reversed: Vec<Vec<usize>>,
}

impl Graph {
    /// Total node count, for contracts.
    pub closed spec fn node_count(self) -> nat {
        self.nodes as nat
    }

    /// Base (DRG) degree.
    pub closed spec fn m(self) -> nat {
        self.base_degree as nat
    }

    /// Expansion degree.
    pub closed spec fn d(self) -> nat {
        self.expansion_degree as nat
    }

    /// The seed words.
    pub closed spec fn seed_view(self) -> Seq<u32> {
        self.seed@
    }

    /// The DRG adjacency, one row per node.
    pub closed spec fn bas_view(self) -> Seq<Seq<usize>> {
        Seq::new(self.bas@.len(), |i: int| self.bas@[i]@)
    }

    /// The forward expander adjacency.
    pub closed spec fn exp_view(self) -> Seq<Seq<usize>> {
        Seq::new(self.exp@.len(), |i: int| self.exp@[i]@)
    }

    /// The reverse expander adjacency.
    pub closed spec fn exp_reversed_view(self) -> Seq<Seq<usize>> {
        Seq::new(self.exp_reversed@.len(), |i: int| self.exp_reversed@[i]@)
    }

    /// Structural soundness: one row per node in each table, every listed
    /// parent a valid node index, and degrees that fit the machine.
    pub closed spec fn wf(self) -> bool {
        &&& self.bas@.len() == self.nodes
        &&& self.exp@.len() == self.nodes
        &&& self.exp_reversed@.len() == self.nodes
        &&& self.base_degree + self.expansion_degree <= usize::MAX
        &&& forall|i: int, t: int|
            0 <= i < self.nodes && 0 <= t < self.bas_view()[i].len() ==> (
            #[trigger] self.bas_view()[i][t] as int) < self.nodes as int
        &&& forall|i: int, t: int|
            0 <= i < self.nodes && 0 <= t < self.exp_view()[i].len() ==> (
            #[trigger] self.exp_view()[i][t] as int) < self.nodes as int
        &&& forall|i: int, t: int|
            0 <= i < self.nodes && 0 <= t < self.exp_reversed_view()[i].len() ==> (
            #[trigger] self.exp_reversed_view()[i][t] as int) < self.nodes as int
    }

    /// The adjacency a generation pass yields: DRG rows are the bucket-sample
    /// lists, expander rows the inverse-permutation lists, reverse rows their
    /// transpose; DRG parents of the first two nodes are zero, and every
    /// parent cited by a later node is strictly earlier.
    pub closed spec fn generated(self) -> bool {
        &&& self.wf()
        &&& forall|i: int|
            0 <= i < self.nodes ==> (#[trigger] self.bas_view()[i]).map_values(
                |p: usize| p as u64,
            ) == drg_parents(self.seed_view(), i as nat, self.m())
        &&& forall|i: int|
            0 <= i < self.nodes ==> #[trigger] self.exp_view()[i] == exp_parents_spec(
                self.nodes as u64,
                self.expansion_degree as u64,
                i as u64,
            )
        &&& forall|j: int|
            0 <= j < self.nodes ==> #[trigger] self.exp_reversed_view()[j] == rev_contrib(
                self.nodes as u64,
                self.expansion_degree as u64,
                j as usize,
                self.nodes as nat,
            )
        &&& forall|i: int, t: int|
            0 <= i < self.nodes && 0 <= t < self.bas_view()[i].len() ==> (
            #[trigger] self.bas_view()[i][t] as int) < (if i < 2 {
                1int
            } else {
                i
            })
        &&& forall|i: int, t: int|
            0 <= i < self.nodes && 0 <= t < self.exp_view()[i].len() ==> (
            #[trigger] self.exp_view()[i][t] as int) < i
        &&& forall|i: int| 0 <= i < self.nodes ==> (#[trigger] self.bas_view()[i]).len() == self.m()
        &&& forall|i: int| 0 <= i < self.nodes ==> (#[trigger] self.exp_view()[i]).len() <= self.d()
    }

    /// Creates a graph with the given parameters and empty adjacency.
    pub fn new(nodes: usize, base_degree: usize, expansion_degree: usize, seed: [u32; 7]) -> (g:
        Graph)
        requires
            base_degree + expansion_degree <= usize::MAX,
        ensures
            g.wf(),
            g.node_count() == nodes,
            g.m() == base_degree,
            g.d() == expansion_degree,
            g.seed_view() == seed@,
            forall|i: int| 0 <= i < nodes ==> (#[trigger] g.bas_view()[i]).len() == 0,
            forall|i: int| 0 <= i < nodes ==> (#[trigger] g.exp_view()[i]).len() == 0,
            forall|i: int| 0 <= i < nodes ==> (#[trigger] g.exp_reversed_view()[i]).len() == 0,
    {
        let bas = empty_rows(nodes);
        let exp = empty_rows(nodes);
        let exp_reversed = empty_rows(nodes);
        Graph { nodes, base_degree, expansion_degree, seed, bas, exp, exp_reversed }
    }

    /// Total number of nodes, as an executable read.
    pub fn num_nodes(&self) -> (r: usize)
        ensures
            r == self.node_count(),
    {
        self.nodes
    }

    /// The fixed width of every parent vector.
    pub fn degree(&self) -> (r: usize)
        requires
            self.m() + self.d() <= usize::MAX,
        ensures
            r == self.m() + self.d(),
    {
        self.base_degree + self.expansion_degree
    }
}

/// `nodes` empty adjacency rows.
fn empty_rows(nodes: usize) -> (r: Vec<Vec<usize>>)
    ensures
        r@.len() == nodes,
        forall|i: int| 0 <= i < nodes ==> (#[trigger] r@[i])@.len() == 0,
{
    let mut r: Vec<Vec<usize>> = Vec::new();
    let mut i: usize = 0;
    while i < nodes
        invariant
            i <= nodes,
            r@.len() == i,
            forall|t: int| 0 <= t < i ==> (#[trigger] r@[t])@.len() == 0,
        decreases nodes - i,
    {
        r.push(Vec::new());
        i = i + 1;
    }
    r
}

impl Graph {
    /// Generates the adjacency: first the forward DRG and expander lists of
    /// every node, each a function of the seed or the permutation table and
    /// the node alone; then, over the completed forward lists, the reverse
    /// expander adjacency.
    pub fn gen_parents_cache(&mut self)
        requires
            old(self).wf(),
            (old(self).node_count() as int) * (old(self).m() as int) + (old(self).m() as int)
                <= 0xffffffffffffffff,
            (old(self).node_count() as int) * (old(self).d() as int) <= 0x4000000000000000,
        ensures
            final(self).generated(),
            final(self).wf(),
            final(self).node_count() == old(self).node_count(),
            final(self).m() == old(self).m(),
            final(self).d() == old(self).d(),
            final(self).seed_view() == old(self).seed_view(),
    {
        let nodes = self.nodes;
        let m = self.base_degree;
        let d = self.expansion_degree;
        let nd = (nodes as u64) * (d as u64);
        let fp = feistel_precompute(nd);
        let mut seed7: Vec<u32> = Vec::new();
        let mut si: usize = 0;
        while si < 7
            invariant
                si <= 7,
                seed7@ == self.seed@.take(si as int),
                *self == *old(self),
            decreases 7 - si,
        {
            seed7.push(self.seed[si]);
            si = si + 1;
        }
        proof {
            assert(seed7@ =~= self.seed@);
        }
        let mut node: usize = 0;
        while node < nodes
            invariant
                node <= nodes,
                nodes == self.nodes,
                m == self.base_degree,
                d == self.expansion_degree,
                nd == (nodes as u64) * (d as u64),
                seed7@ == self.seed@,
                seed7@.len() == 7,
                self.seed == old(self).seed,
                self.exp_reversed == old(self).exp_reversed,
                self.bas@.len() == nodes,
                self.exp@.len() == nodes,
                self.exp_reversed@.len() == nodes,
                (nodes as int) * (m as int) + (m as int) <= 0xffffffffffffffff,
                (nodes as int) * (d as int) <= 0x4000000000000000,
                m + d <= usize::MAX,
                pre_wf(fp, nd),
                forall|i: int|
                    0 <= i < node ==> (#[trigger] self.bas_view()[i]).map_values(|p: usize| p as u64)
                        == drg_parents(self.seed@, i as nat, m as nat),
                forall|i: int|
                    0 <= i < node ==> #[trigger] self.exp_view()[i] == exp_parents_spec(
                        nodes as u64,
                        d as u64,
                        i as u64,
                    ),
                forall|i: int, t: int|
                    0 <= i < node && 0 <= t < self.bas_view()[i].len() ==> (
                    #[trigger] self.bas_view()[i][t] as int) < (if i < 2 {
                        1int
                    } else {
                        i
                    }),
                forall|i: int, t: int|
                    0 <= i < node && 0 <= t < self.exp_view()[i].len() ==> (
                    #[trigger] self.exp_view()[i][t] as int) < i,
                forall|i: int| 0 <= i < node ==> (#[trigger] self.bas_view()[i]).len() == m,
                forall|i: int| 0 <= i < node ==> (#[trigger] self.exp_view()[i]).len() <= d,
            decreases nodes - node,
        {
            proof {
                assert((node as int) * (m as int) + (m as int) <= (nodes as int) * (m as int) + (
                m as int)) by (nonlinear_arith)
                    requires
                        0 <= node as int,
                        (node as int) < nodes as int,
                        (m as int) >= 0,
                ;
            }
            let b = bucketsample_parents(&seed7, node, m);
            let e = expander_parents(nodes, d, node, &fp);
            let ghost pre = *self;
            self.bas.set(node, b);
            self.exp.set(node, e);
            proof {
                assert forall|i: int| 0 <= i < node as int implies #[trigger] self.bas_view()[i]
                    == pre.bas_view()[i] by {
                    assert(self.bas@[i] == pre.bas@[i]);
                }
                assert forall|i: int| 0 <= i < node as int implies #[trigger] self.exp_view()[i]
                    == pre.exp_view()[i] by {
                    assert(self.exp@[i] == pre.exp@[i]);
                }
                assert(self.bas_view()[node as int] == b@);
                assert(self.exp_view()[node as int] == e@);
            }
            node = node + 1;
        }
        // Second pass: the reverse adjacency, built only after every forward
        // edge exists. Node indices enter each target row in ascending order.
        let mut jt: usize = 0;
        while jt < nodes
            invariant
                jt <= nodes,
                nodes == self.nodes,
                m == self.base_degree,
                d == self.expansion_degree,
                self.seed == old(self).seed,
                self.bas@.len() == nodes,
                self.exp@.len() == nodes,
                self.exp_reversed@.len() == nodes,
                m + d <= usize::MAX,
                forall|i: int|
                    0 <= i < nodes ==> (#[trigger] self.bas_view()[i]).map_values(|p: usize| p as u64)
                        == drg_parents(self.seed@, i as nat, m as nat),
                forall|i: int|
                    0 <= i < nodes ==> #[trigger] self.exp_view()[i] == exp_parents_spec(
                        nodes as u64,
                        d as u64,
                        i as u64,
                    ),
                forall|i: int, t: int|
                    0 <= i < nodes && 0 <= t < self.bas_view()[i].len() ==> (
                    #[trigger] self.bas_view()[i][t] as int) < (if i < 2 {
                        1int
                    } else {
                        i
                    }),
                forall|i: int, t: int|
                    0 <= i < nodes && 0 <= t < self.exp_view()[i].len() ==> (
                    #[trigger] self.exp_view()[i][t] as int) < i,
                forall|i: int| 0 <= i < nodes ==> (#[trigger] self.bas_view()[i]).len() == m,
                forall|i: int| 0 <= i < nodes ==> (#[trigger] self.exp_view()[i]).len() <= d,
                forall|j: int|
                    0 <= j < jt ==> #[trigger] self.exp_reversed_view()[j] == rev_contrib(
                        nodes as u64,
                        d as u64,
                        j as usize,
                        nodes as nat,
                    ),
                forall|j: int, t: int|
                    0 <= j < jt && 0 <= t < self.exp_reversed_view()[j].len() ==> (
                    #[trigger] self.exp_reversed_view()[j][t] as int) < nodes as int,
            decreases nodes - jt,
        {
            let mut row: Vec<usize> = Vec::new();
            let mut n1: usize = 0;
            while n1 < nodes
                invariant
                    n1 <= nodes,
                    nodes == self.nodes,
                    d == self.expansion_degree,
                    jt < nodes,
                    self.exp@.len() == nodes,
                    forall|i: int|
                        0 <= i < nodes ==> #[trigger] self.exp_view()[i] == exp_parents_spec(
                            nodes as u64,
                            d as u64,
                            i as u64,
                        ),
                    row@ == rev_contrib(nodes as u64, d as u64, jt, n1 as nat),
                    forall|t: int| 0 <= t < row@.len() ==> (#[trigger] row@[t] as int) < nodes as int,
                decreases nodes - n1,
            {
                let ghost erow = exp_parents_spec(nodes as u64, d as u64, n1 as u64);
                let ghost row_at_entry = row@;
                let rlen = self.exp[n1].len();
                let mut t: usize = 0;
                while t < rlen
                    invariant
                        t <= rlen,
                        n1 < nodes,
                        jt < nodes,
                        nodes == self.nodes,
                        self.exp@.len() == nodes,
                        rlen == self.exp@[n1 as int]@.len(),
                        self.exp_view()[n1 as int] == erow,
                        row@ == row_at_entry + Seq::new(
                            cnt(erow.take(t as int), jt),
                            |q: int| n1 as usize,
                        ),
                        forall|q: int| 0 <= q < row@.len() ==> (#[trigger] row@[q] as int) < nodes as int,
                    decreases rlen - t,
                {
                    let p = self.exp[n1][t];
                    let ghost before = row@;
                    if p == jt {
                        row.push(n1);
                    }
                    proof {
                        lemma_cnt_snoc(erow.take(t as int), p, jt);
                        assert(erow.take(t as int).push(p) =~= erow.take(t as int + 1));
                        if p == jt {
                            assert(row@ =~= row_at_entry + Seq::new(
                                cnt(erow.take(t as int + 1), jt),
                                |q: int| n1 as usize,
                            ));
                        } else {
                            assert(row@ =~= row_at_entry + Seq::new(
                                cnt(erow.take(t as int + 1), jt),
                                |q: int| n1 as usize,
                            ));
                        }
                    }
                    t = t + 1;
                }
                proof {
                    assert(erow.take(rlen as int) =~= erow);
                    assert(row@ =~= rev_contrib(nodes as u64, d as u64, jt, (n1 + 1) as nat));
                }
                n1 = n1 + 1;
            }
            let ghost pre = *self;
            self.exp_reversed.set(jt, row);
            proof {
                assert forall|j: int| 0 <= j < jt as int implies #[trigger] self.exp_reversed_view()[j]
                    == pre.exp_reversed_view()[j] by {
                    assert(self.exp_reversed@[j] == pre.exp_reversed@[j]);
                }
                assert forall|i: int| 0 <= i < nodes as int implies #[trigger] self.bas_view()[i]
                    == pre.bas_view()[i] by {
                    assert(self.bas@[i] == pre.bas@[i]);
                }
                assert forall|i: int| 0 <= i < nodes as int implies #[trigger] self.exp_view()[i]
                    == pre.exp_view()[i] by {
                    assert(self.exp@[i] == pre.exp@[i]);
                }
                assert(self.exp_reversed_view()[jt as int] == row@);
            }
            jt = jt + 1;
        }
    }
}

/// Fills a parent list with zeroes up to the requested width; a list already
/// at or past the width is kept as it is.
pub open spec fn pad_spec(s: Seq<usize>, w: nat) -> Seq<usize> {
    if s.len() >= w {
        s
    } else {
        s + Seq::new((w - s.len()) as nat, |t: int| 0usize)
    }
}

/// The first `w` entries of an over-long list; a generated graph never
/// exceeds its declared degrees, so this is the identity there.
pub open spec fn trim_spec(s: Seq<usize>, w: nat) -> Seq<usize> {
    if s.len() <= w {
        s
    } else {
        s.take(w as int)
    }
}

/// The fixed-width parent vector of a node on a layer: the DRG half first
/// (reflected through the index mirror on odd layers), then the expander
/// half (the reverse adjacency on odd layers), each zero-padded to its
/// declared degree.
pub open spec fn parents_spec(g: Graph, node: int, layer: int) -> Seq<usize> {
    let nc = g.node_count() as int;
    let base = if layer % 2 == 0 {
        g.bas_view()[node]
    } else {
        g.bas_view()[nc - node - 1].map_values(|p: usize| ((nc - p - 1) as usize))
    };
    let ex = if layer % 2 == 0 {
        g.exp_view()[node]
    } else {
        g.exp_reversed_view()[node]
    };
    pad_spec(trim_spec(base, g.m()), g.m()) + pad_spec(trim_spec(ex, g.d()), g.d())
}

/// Pads a parent list with zeroes up to `size` entries.
pub fn pad_parents(v: Vec<usize>, size: usize) -> (r: Vec<usize>)
    ensures
        r@ == pad_spec(v@, size as nat),
{
    let mut r = v;
    while r.len() < size
        invariant
            r@ == pad_spec_partial(v@, r@.len() as nat),
            r@.len() >= v@.len(),
            r@.len() <= (if v@.len() >= size as nat {
                v@.len()
            } else {
                size as nat
            }),
        decreases size - r@.len(),
    {
        r.push(0);
        proof {
            assert(r@ =~= pad_spec_partial(v@, r@.len() as nat));
        }
    }
    proof {
        if v@.len() >= size as nat {
            assert(r@ =~= pad_spec(v@, size as nat));
        } else {
            assert(r@ =~= pad_spec(v@, size as nat));
        }
    }
    r
}

/// A list extended by some number of zeroes.
pub open spec fn pad_spec_partial(s: Seq<usize>, k: nat) -> Seq<usize> {
    if k <= s.len() {
        s
    } else {
        s + Seq::new((k - s.len()) as nat, |t: int| 0usize)
    }
}

impl Graph {
    /// The fixed-width parent vector of `node` on `layer`, written into
    /// `parents`: base half first, expander half second, each padded to its
    /// degree; odd layers reflect the DRG half and use the reverse expander
    /// adjacency.
    pub fn parents(&self, node: usize, layer: usize, parents: &mut Vec<usize>)
        requires
            self.wf(),
            (node as int) < self.node_count() as int,
        ensures
            final(parents)@ == parents_spec(*self, node as int, layer as int),
            final(parents)@.len() == self.m() + self.d(),
    {
        parents.clear();
        let m = self.base_degree;
        let d = self.expansion_degree;
        let n = self.nodes;
        let mut base_half: Vec<usize> = Vec::new();
        if layer % 2 == 0 {
            let row = &self.bas[node];
            let lim = if row.len() < m {
                row.len()
            } else {
                m
            };
            let mut t: usize = 0;
            while t < lim
                invariant
                    t <= lim,
                    lim <= row@.len(),
                    base_half@ == row@.take(t as int),
                decreases lim - t,
            {
                base_half.push(row[t]);
                t = t + 1;
            }
            proof {
                assert(base_half@ =~= trim_spec(self.bas_view()[node as int], m as nat));
            }
        } else {
            let r = n - node - 1;
            let row = &self.bas[r];
            let lim = if row.len() < m {
                row.len()
            } else {
                m
            };
            let ghost mapped = self.bas_view()[r as int].map_values(
                |p: usize| ((n - p - 1) as usize),
            );
            let mut t: usize = 0;
            while t < lim
                invariant
                    t <= lim,
                    lim <= row@.len(),
                    n == self.nodes,
                    r == n - node - 1 < n,
                    self.wf(),
                    row@ == self.bas_view()[r as int],
                    mapped == self.bas_view()[r as int].map_values(
                        |p: usize| ((n - p - 1) as usize),
                    ),
                    base_half@ == mapped.take(t as int),
                decreases lim - t,
            {
                let p = row[t];
                proof {
                    assert((self.bas_view()[r as int][t as int] as int) < self.nodes as int);
                }
                base_half.push(n - p - 1);
                proof {
                    assert(base_half@ =~= mapped.take(t as int + 1));
                }
                t = t + 1;
            }
            proof {
                assert(mapped.len() == row@.len());
                assert(base_half@ =~= trim_spec(mapped, m as nat));
            }
        }
        let mut ps = pad_parents(base_half, m);
        let mut exp_half: Vec<usize> = Vec::new();
        {
            let row = if layer % 2 == 0 {
                &self.exp[node]
            } else {
                &self.exp_reversed[node]
            };
            let lim = if row.len() < d {
                row.len()
            } else {
                d
            };
            let mut t: usize = 0;
            while t < lim
                invariant
                    t <= lim,
                    lim <= row@.len(),
                    exp_half@ == row@.take(t as int),
                decreases lim - t,
            {
                exp_half.push(row[t]);
                t = t + 1;
            }
            proof {
                if layer % 2 == 0 {
                    assert(exp_half@ =~= trim_spec(self.exp_view()[node as int], d as nat));
                } else {
                    assert(exp_half@ =~= trim_spec(
                        self.exp_reversed_view()[node as int],
                        d as nat,
                    ));
                }
            }
        }
        let mut es = pad_parents(exp_half, d);
        ps.append(&mut es);
        proof {
            assert(ps@.len() == m + d) by {
                let spec_ps = parents_spec(*self, node as int, layer as int);
                assert(pad_spec(
                    trim_spec(
                        if (layer as int) % 2 == 0 {
                            self.bas_view()[node as int]
                        } else {
                            self.bas_view()[self.node_count() - node - 1].map_values(
                                |p: usize| ((self.node_count() - p - 1) as usize),
                            )
                        },
                        m as nat,
                    ),
                    m as nat,
                ).len() == m);
            }
        }
        let mut i: usize = 0;
        let total = ps.len();
        while i < total
            invariant
                i <= total,
                total == ps@.len(),
                parents@ == ps@.take(i as int),
            decreases total - i,
        {
            parents.push(ps[i]);
            i = i + 1;
        }
        proof {
            assert(parents@ =~= ps@);
        }
    }
}

/// Determinism: graphs generated from the same node count, degrees and seed
/// have byte-identical DRG, expander and reverse-expander adjacency.
pub proof fn lemma_generation_deterministic(g1: Graph, g2: Graph)
    requires
        g1.generated(),
        g2.generated(),
        g1.node_count() == g2.node_count(),
        g1.m() == g2.m(),
        g1.d() == g2.d(),
        g1.seed_view() == g2.seed_view(),
    ensures
        g1.bas_view() == g2.bas_view(),
        g1.exp_view() == g2.exp_view(),
        g1.exp_reversed_view() == g2.exp_reversed_view(),
{
    assert forall|i: int| 0 <= i < g1.node_count() implies #[trigger] g1.bas_view()[i]
        == g2.bas_view()[i] by {
        let a = g1.bas_view()[i];
        let b = g2.bas_view()[i];
        assert(a.map_values(|p: usize| p as u64) == b.map_values(|p: usize| p as u64));
        assert(a.map_values(|p: usize| p as u64).len() == a.len());
        assert(b.map_values(|p: usize| p as u64).len() == b.len());
        assert forall|t: int| 0 <= t < a.len() implies a[t] == b[t] by {
            assert(a.map_values(|p: usize| p as u64)[t] == b.map_values(|p: usize| p as u64)[t]);
        }
        assert(a =~= b);
    }
    assert(g1.bas_view() =~= g2.bas_view());
    assert(g1.exp_view() =~= g2.exp_view());
    assert(g1.exp_reversed_view() =~= g2.exp_reversed_view());
}

/// DRG acyclicity: past the first two nodes, every DRG parent is a strictly
/// earlier node; the first two nodes only cite node zero.
pub proof fn lemma_drg_acyclic(g: Graph)
    requires
        g.generated(),
    ensures
        forall|i: int, t: int|
            2 <= i < g.node_count() && 0 <= t < g.bas_view()[i].len() ==> (
            #[trigger] g.bas_view()[i][t] as int) < i,
        forall|i: int, t: int|
            0 <= i < 2 && i < g.node_count() && 0 <= t < g.bas_view()[i].len() ==> (
            #[trigger] g.bas_view()[i][t]) == 0,
{
}

/// Expander acyclicity: every expander parent is a strictly earlier node.
pub proof fn lemma_expander_acyclic(g: Graph)
    requires
        g.generated(),
    ensures
        forall|i: int, t: int|
            0 <= i < g.node_count() && 0 <= t < g.exp_view()[i].len() ==> (
            #[trigger] g.exp_view()[i][t] as int) < i,
{
}

/// Reverse-edge consistency: every forward expander edge appears in the
/// reverse adjacency of its target.
pub proof fn lemma_reverse_edge_membership(g: Graph)
    requires
        g.generated(),
    ensures
        forall|n1: int, t: int|
            0 <= n1 < g.node_count() && 0 <= t < g.exp_view()[n1].len()
                ==> g.exp_reversed_view()[#[trigger] g.exp_view()[n1][t] as int].contains(
                n1 as usize,
            ),
{
    assert forall|n1: int, t: int|
        0 <= n1 < g.node_count() && 0 <= t < g.exp_view()[n1].len() implies g.exp_reversed_view()[
        #[trigger] g.exp_view()[n1][t] as int].contains(n1 as usize) by {
        let j = g.exp_view()[n1][t];
        assert((j as int) < n1 < g.node_count());
        lemma_cnt_positive(g.exp_view()[n1], t, j);
        assert(g.exp_view()[n1] == exp_parents_spec(
            g.node_count() as u64,
            g.d() as u64,
            n1 as u64,
        ));
        lemma_rev_contains(
            g.node_count() as u64,
            g.d() as u64,
            j,
            n1,
            g.node_count() as nat,
        );
        assert(g.exp_reversed_view()[j as int] == rev_contrib(
            g.node_count() as u64,
            g.d() as u64,
            j,
            g.node_count() as nat,
        ));
    }
}

/// A positive occurrence count yields a member.
proof fn lemma_cnt_to_contains(s: Seq<usize>, x: usize)
    requires
        cnt(s, x) >= 1,
    ensures
        s.contains(x),
    decreases s.len(),
{
    if s.len() > 0 {
        if s[0] == x {
            assert(s[0] == x);
        } else {
            lemma_cnt_to_contains(s.drop_first(), x);
            let i = choose|i: int| 0 <= i < s.drop_first().len() && s.drop_first()[i] == x;
            assert(s[i + 1] == x);
        }
    }
}

/// Every reverse entry names a forward node that cites the target.
proof fn lemma_rev_entry_source(nodes: u64, d: u64, j: usize, n: nat, t: int)
    requires
        n <= usize::MAX,
        0 <= t < rev_contrib(nodes, d, j, n).len(),
    ensures
        (rev_contrib(nodes, d, j, n)[t] as nat) < n,
        cnt(exp_parents_spec(nodes, d, rev_contrib(nodes, d, j, n)[t] as u64), j) >= 1,
    decreases n,
{
    if n > 0 {
        let prev = rev_contrib(nodes, d, j, (n - 1) as nat);
        if t < prev.len() {
            lemma_rev_entry_source(nodes, d, j, (n - 1) as nat, t);
            assert(rev_contrib(nodes, d, j, n)[t] == prev[t]);
        } else {
            assert(rev_contrib(nodes, d, j, n)[t] == (n - 1) as usize);
            assert(cnt(exp_parents_spec(nodes, d, (n - 1) as u64), j) >= 1);
        }
    }
}

/// Reverse-edge consistency, converse direction: every entry of a reverse
/// list is a node whose forward expander list holds the target, so the
/// reverse adjacency is exactly the inverse of the forward edge relation.
pub proof fn lemma_reverse_edge_membership_converse(g: Graph)
    requires
        g.generated(),
    ensures
        forall|n2: int, t: int|
            0 <= n2 < g.node_count() && 0 <= t < g.exp_reversed_view()[n2].len()
                ==> g.exp_view()[#[trigger] g.exp_reversed_view()[n2][t] as int].contains(
                (n2 as usize),
            ) && (g.exp_reversed_view()[n2][t] as int) < g.node_count() as int,
{
    assert forall|n2: int, t: int|
        0 <= n2 < g.node_count() && 0 <= t < g.exp_reversed_view()[n2].len() implies g.exp_view()[
        #[trigger] g.exp_reversed_view()[n2][t] as int].contains((n2 as usize)) && (
    g.exp_reversed_view()[n2][t] as int) < g.node_count() as int by {
        let nodes = g.node_count() as u64;
        let d = g.d() as u64;
        assert(g.exp_reversed_view()[n2] == rev_contrib(nodes, d, n2 as usize, g.node_count()));
        lemma_rev_entry_source(nodes, d, n2 as usize, g.node_count(), t);
        let n1 = g.exp_reversed_view()[n2][t];
        assert(g.exp_view()[n1 as int] == exp_parents_spec(nodes, d, n1 as u64));
        lemma_cnt_to_contains(exp_parents_spec(nodes, d, n1 as u64), n2 as usize);
    }
}

/// A node with a forward occurrence of `j` appears in the reverse list of `j`
/// built from enough forward nodes.
proof fn lemma_rev_contains(nodes: u64, d: u64, j: usize, n1: int, n: nat)
    requires
        0 <= n1 < n,
        cnt(exp_parents_spec(nodes, d, n1 as u64), j) >= 1,
    ensures
        rev_contrib(nodes, d, j, n).contains(n1 as usize),
    decreases n,
{
    if n1 == n - 1 {
        let prev = rev_contrib(nodes, d, j, (n - 1) as nat);
        let added = Seq::new(cnt(exp_parents_spec(nodes, d, (n - 1) as u64), j), |t: int| (n
            - 1) as usize);
        assert(added.len() >= 1);
        assert(rev_contrib(nodes, d, j, n)[prev.len() as int] == n1 as usize);
    } else {
        lemma_rev_contains(nodes, d, j, n1, (n - 1) as nat);
        let prev = rev_contrib(nodes, d, j, (n - 1) as nat);
        let w = choose|w: int| 0 <= w < prev.len() && prev[w] == n1 as usize;
        assert(rev_contrib(nodes, d, j, n)[w] == n1 as usize);
    }
}

/// Fixed-width contract: every parent query yields exactly `m + d` entries.
pub proof fn lemma_parents_fixed_width(g: Graph, node: int, layer: int)
    requires
        g.wf(),
        0 <= node < g.node_count(),
    ensures
        parents_spec(g, node, layer).len() == g.m() + g.d(),
{
}

/// Odd-layer DRG reflection: on an odd layer the DRG half of a node's parent
/// vector is the mirror image of the mirrored node's DRG list, in order.
pub proof fn lemma_odd_layer_reflection(g: Graph, node: int, layer: int)
    requires
        g.generated(),
        0 <= node < g.node_count(),
        layer % 2 == 1,
    ensures
        parents_spec(g, node, layer).take(g.m() as int) == g.bas_view()[g.node_count() - node
            - 1].map_values(|p: usize| ((g.node_count() - p - 1) as usize)),
{
    let nc = g.node_count() as int;
    let mirrored = g.bas_view()[nc - node - 1].map_values(
        |p: usize| ((g.node_count() - p - 1) as usize),
    );
    assert(g.bas_view()[nc - node - 1].len() == g.m());
    assert(mirrored.len() == g.m());
    assert(trim_spec(mirrored, g.m()) == mirrored);
    assert(pad_spec(mirrored, g.m()) == mirrored);
    assert(parents_spec(g, node, layer).take(g.m() as int) =~= mirrored);
}

/// Every entry of a parent vector is a valid node index.
pub proof fn lemma_parents_in_range(g: Graph, node: int, layer: int)
    requires
        g.wf(),
        0 <= node < g.node_count(),
    ensures
        forall|t: int|
            0 <= t < parents_spec(g, node, layer).len() ==> (#[trigger] parents_spec(
                g,
                node,
                layer,
            )[t] as int) < g.node_count() as int,
{
    let nc = g.node_count() as int;
    let ps = parents_spec(g, node, layer);
    let base = if layer % 2 == 0 {
        g.bas_view()[node]
    } else {
        g.bas_view()[nc - node - 1].map_values(|p: usize| ((g.node_count() - p - 1) as usize))
    };
    let ex = if layer % 2 == 0 {
        g.exp_view()[node]
    } else {
        g.exp_reversed_view()[node]
    };
    assert forall|t: int| 0 <= t < base.len() implies (#[trigger] base[t] as int) < nc by {
        if layer % 2 != 0 {
            assert((g.bas_view()[nc - node - 1][t] as int) < nc);
        }
    }
    assert forall|t: int| 0 <= t < ex.len() implies (#[trigger] ex[t] as int) < nc by {}
    assert forall|t: int| 0 <= t < ps.len() implies (#[trigger] ps[t] as int) < nc by {
        let bh = pad_spec(trim_spec(base, g.m()), g.m());
        let eh = pad_spec(trim_spec(ex, g.d()), g.d());
        assert(ps == bh + eh);
        if t < bh.len() {
            assert(ps[t] == bh[t]);
        } else {
            assert(ps[t] == eh[t - bh.len()]);
        }
    }
}

/// With no expansion edges, the expander and reverse adjacency are empty for
/// every node, and a parent vector holds the padded DRG half alone.
pub proof fn lemma_zero_expansion(g: Graph, node: int, layer: int)
    requires
        g.generated(),
        g.d() == 0,
        0 <= node < g.node_count(),
    ensures
        g.exp_view()[node].len() == 0,
        g.exp_reversed_view()[node].len() == 0,
        parents_spec(g, node, layer) == pad_spec(
            trim_spec(
                if layer % 2 == 0 {
                    g.bas_view()[node]
                } else {
                    g.bas_view()[g.node_count() - node - 1].map_values(
                        |p: usize| ((g.node_count() - p - 1) as usize),
                    )
                },
                g.m(),
            ),
            g.m(),
        ),
        parents_spec(g, node, layer).len() == g.m(),
{
    assert(g.exp_view()[node] == exp_parents_spec(g.node_count() as u64, 0u64, node as u64));
    lemma_rev_contrib_empty(g.node_count() as u64, node as usize, g.node_count() as nat);
    assert(g.exp_reversed_view()[node] == rev_contrib(
        g.node_count() as u64,
        0u64,
        node as usize,
        g.node_count() as nat,
    ));
    let ex = if layer % 2 == 0 {
        g.exp_view()[node]
    } else {
        g.exp_reversed_view()[node]
    };
    assert(pad_spec(trim_spec(ex, 0), 0) =~= Seq::<usize>::empty());
    assert(parents_spec(g, node, layer) =~= pad_spec(
        trim_spec(
            if layer % 2 == 0 {
                g.bas_view()[node]
            } else {
                g.bas_view()[g.node_count() - node - 1].map_values(
                    |p: usize| ((g.node_count() - p - 1) as usize),
                )
            },
            g.m(),
        ),
        g.m(),
    ));
}

/// With no expansion edges the reverse lists stay empty.
proof fn lemma_rev_contrib_empty(nodes: u64, j: usize, n: nat)
    ensures
        rev_contrib(nodes, 0u64, j, n).len() == 0,
    decreases n,
{
    if n > 0 {
        lemma_rev_contrib_empty(nodes, j, (n - 1) as nat);
        assert(cnt(exp_parents_spec(nodes, 0u64, (n - 1) as u64), j) == 0);
    }
}

/// One row of the persisted form: its length, then its entries.
pub open spec fn enc_row(row: Seq<usize>) -> Seq<u64> {
    seq![row.len() as u64] + row.map_values(|p: usize| p as u64)
}

/// A table of the persisted form, rows in node order from `i` on.
pub open spec fn enc_table(t: Seq<Seq<usize>>, i: nat, n: nat) -> Seq<u64>
    decreases n - i,
    when i <= n
{
    if i >= n {
        Seq::empty()
    } else {
        enc_row(t[i as int]) + enc_table(t, i + 1, n)
    }
}

/// The persisted form of a graph: node count, degrees and seed words, then
/// the three adjacency tables, every number one 64-bit word.
pub open spec fn graph_encoding(g: Graph) -> Seq<u64> {
    let nc = g.node_count();
    seq![nc as u64, g.m() as u64, g.d() as u64] + g.seed_view().map_values(|w: u32| w as u64)
        + enc_table(g.bas_view(), 0, nc) + enc_table(g.exp_view(), 0, nc) + enc_table(
        g.exp_reversed_view(),
        0,
        nc,
    )
}

/// Appends one table of the persisted form.
fn push_table(out: &mut Vec<u64>, t: &Vec<Vec<usize>>)
    ensures
        final(out)@ == old(out)@ + enc_table(
            Seq::new(t@.len(), |i: int| t@[i]@),
            0,
            t@.len() as nat,
        ),
{
    let ghost tv = Seq::new(t@.len(), |i: int| t@[i]@);
    let ghost base = out@;
    let n = t.len();
    let mut i: usize = 0;
    while i < n
        invariant
            i <= n,
            n == t@.len(),
            tv == Seq::new(t@.len(), |q: int| t@[q]@),
            out@ + enc_table(tv, i as nat, n as nat) == base + enc_table(tv, 0, n as nat),
        decreases n - i,
    {
        let row = &t[i];
        let ghost before = out@;
        out.push(row.len() as u64);
        let mut k: usize = 0;
        while k < row.len()
            invariant
                k <= row@.len(),
                row@ == t@[i as int]@,
                i < n,
                n == t@.len(),
                tv == Seq::new(t@.len(), |q: int| t@[q]@),
                out@ == before + seq![row@.len() as u64] + row@.map_values(
                    |p: usize| p as u64,
                ).take(k as int),
            decreases row@.len() - k,
        {
            out.push(row[k] as u64);
            proof {
                assert(out@ =~= before + seq![row@.len() as u64] + row@.map_values(
                    |p: usize| p as u64,
                ).take(k as int + 1));
            }
            k = k + 1;
        }
        proof {
            assert(row@.map_values(|p: usize| p as u64).take(row@.len() as int) =~= row@.map_values(
                |p: usize| p as u64,
            ));
            assert(out@ =~= before + enc_row(tv[i as int]));
            assert(enc_table(tv, i as nat, n as nat) == enc_row(tv[i as int]) + enc_table(
                tv,
                (i + 1) as nat,
                n as nat,
            ));
            assert(out@ + enc_table(tv, (i + 1) as nat, n as nat) =~= before + enc_table(
                tv,
                i as nat,
                n as nat,
            ));
        }
        i = i + 1;
    }
    proof {
        assert(enc_table(tv, n as nat, n as nat) =~= Seq::<u64>::empty());
        assert(out@ =~= out@ + enc_table(tv, n as nat, n as nat));
    }
}

impl Graph {
    /// The persisted form: a word stream that `decode_graph` restores
    /// exactly.
    pub fn encode_graph(&self) -> (r: Vec<u64>)
        requires
            self.wf(),
        ensures
            r@ == graph_encoding(*self),
    {
        let mut out: Vec<u64> = Vec::new();
        out.push(self.nodes as u64);
        out.push(self.base_degree as u64);
        out.push(self.expansion_degree as u64);
        let mut si: usize = 0;
        while si < 7
            invariant
                si <= 7,
                out@ == seq![
                    self.node_count() as u64,
                    self.m() as u64,
                    self.d() as u64,
                ] + self.seed_view().map_values(|w: u32| w as u64).take(si as int),
            decreases 7 - si,
        {
            out.push(self.seed[si] as u64);
            proof {
                assert(out@ =~= seq![
                    self.node_count() as u64,
                    self.m() as u64,
                    self.d() as u64,
                ] + self.seed_view().map_values(|w: u32| w as u64).take(si as int + 1));
            }
            si = si + 1;
        }
        proof {
            assert(self.seed_view().map_values(|w: u32| w as u64).take(7) =~= self.seed_view().map_values(|w: u32| w as u64));
        }
        push_table(&mut out, &self.bas);
        push_table(&mut out, &self.exp);
        push_table(&mut out, &self.exp_reversed);
        proof {
            assert(Seq::new(self.bas@.len(), |i: int| self.bas@[i]@) =~= self.bas_view());
            assert(Seq::new(self.exp@.len(), |i: int| self.exp@[i]@) =~= self.exp_view());
            assert(Seq::new(self.exp_reversed@.len(), |i: int| self.exp_reversed@[i]@)
                =~= self.exp_reversed_view());
            assert(out@ =~= graph_encoding(*self));
        }
        out
    }

    /// Restores a graph from its persisted form: it succeeds on every
    /// encoding of a well-formed graph, and whatever it accepts re-encodes to
    /// the given words, so (by `lemma_encoding_injective`) decoding an
    /// encoding restores exactly the encoded graph.
    pub fn decode_graph(data: &Vec<u64>) -> (r: Option<Graph>)
        ensures
            r matches Some(g) ==> g.wf() && graph_encoding(g) == data@,
            forall|g0: Graph|
                g0.wf() && #[trigger] graph_encoding(g0) == data@ ==> r is Some,
    {
        let ghost hyp = exists|g0: Graph| g0.wf() && graph_encoding(g0) == data@;
        let ghost g0 = choose|g0: Graph| g0.wf() && graph_encoding(g0) == data@;
        let dl = data.len();
        proof {
            if hyp {
                lemma_encoding_header(g0);
            }
        }
        if data.len() < 10 {
            proof {
                if hyp {
                    assert(false);
                }
            }
            return None;
        }
        let nodes64 = data[0];
        let m64 = data[1];
        let d64 = data[2];
        if nodes64 > usize::MAX as u64 || m64 > usize::MAX as u64 || d64 > usize::MAX as u64 {
            proof {
                if hyp {
                    assert(false);
                }
            }
            return None;
        }
        let nodes = nodes64 as usize;
        let m = m64 as usize;
        let d = d64 as usize;
        if usize::MAX - m < d {
            proof {
                if hyp {
                    assert(m == g0.m() && d == g0.d());
                    assert(false);
                }
            }
            return None;
        }
        if data[3] > u32::MAX as u64 || data[4] > u32::MAX as u64 || data[5] > u32::MAX as u64
            || data[6] > u32::MAX as u64 || data[7] > u32::MAX as u64 || data[8] > u32::MAX as u64
            || data[9] > u32::MAX as u64 {
            proof {
                if hyp {
                    assert(false);
                }
            }
            return None;
        }
        let seed: [u32; 7] = [
            data[3] as u32,
            data[4] as u32,
            data[5] as u32,
            data[6] as u32,
            data[7] as u32,
            data[8] as u32,
            data[9] as u32,
        ];
        proof {
            if hyp {
                assert(nodes == g0.node_count());
                lemma_encoding_tables(g0, data@, 10, 0);
            }
        }
        let first = match parse_table(
            data,
            10,
            nodes,
            Ghost(hyp),
            Ghost(g0.bas_view()),
        ) {
            None => {
                return None;
            },
            Some(t) => t,
        };
        let (bas, pos1) = first;
        proof {
            if hyp {
                lemma_encoding_tables(g0, data@, pos1 as int, 1);
            }
        }
        let second = match parse_table(
            data,
            pos1,
            nodes,
            Ghost(hyp),
            Ghost(g0.exp_view()),
        ) {
            None => {
                return None;
            },
            Some(t) => t,
        };
        let (exp, pos2) = second;
        proof {
            if hyp {
                lemma_encoding_tables(g0, data@, pos2 as int, 2);
            }
        }
        let third = match parse_table(
            data,
            pos2,
            nodes,
            Ghost(hyp),
            Ghost(g0.exp_reversed_view()),
        ) {
            None => {
                return None;
            },
            Some(t) => t,
        };
        let (exp_reversed, pos3) = third;
        if pos3 != data.len() {
            proof {
                if hyp {
                    lemma_encoding_header(g0);
                    assert(false);
                }
            }
            return None;
        }
        let g = Graph { nodes, base_degree: m, expansion_degree: d, seed, bas, exp, exp_reversed };
        proof {
            assert(g.wf());
        }
        let enc = g.encode_graph();
        proof {
            if hyp {
                assert(g.node_count() == g0.node_count());
                assert(g.m() == g0.m() && g.d() == g0.d());
                assert(g.seed_view() =~= g0.seed_view()) by {
                    lemma_encoding_header(g0);
                    assert forall|k: int| 0 <= k < 7 implies g.seed_view()[k]
                        == g0.seed_view()[k] by {
                        assert(data@[3 + k] == g0.seed_view()[k] as u64);
                    }
                }
                assert(g.bas_view() =~= g0.bas_view());
                assert(g.exp_view() =~= g0.exp_view());
                assert(g.exp_reversed_view() =~= g0.exp_reversed_view());
                assert(graph_encoding(g) == graph_encoding(g0));
            }
        }
        if !eq_words(&enc, data) {
            proof {
                if hyp {
                    assert(false);
                }
            }
            return None;
        }
        Some(g)
    }
}

/// Header facts of an encoding: at least ten words, whose first ten are the
/// parameters and seed.
proof fn lemma_encoding_header(g0: Graph)
    requires
        g0.wf(),
    ensures
        graph_encoding(g0).len() >= 10,
        graph_encoding(g0).len() == 10 + enc_table(g0.bas_view(), 0, g0.node_count()).len()
            + enc_table(g0.exp_view(), 0, g0.node_count()).len() + enc_table(
            g0.exp_reversed_view(),
            0,
            g0.node_count(),
        ).len(),
        graph_encoding(g0)[0] == g0.node_count() as u64,
        graph_encoding(g0)[1] == g0.m() as u64,
        graph_encoding(g0)[2] == g0.d() as u64,
        forall|k: int| 0 <= k < 7 ==> graph_encoding(g0)[3 + k] == g0.seed_view()[k] as u64,
{
    let h1 = seq![
        g0.node_count() as u64,
        g0.m() as u64,
        g0.d() as u64,
    ] + g0.seed_view().map_values(|w: u32| w as u64);
    assert(h1.len() == 10);
    let b = enc_table(g0.bas_view(), 0, g0.node_count());
    let x = enc_table(g0.exp_view(), 0, g0.node_count());
    let v = enc_table(g0.exp_reversed_view(), 0, g0.node_count());
    assert(graph_encoding(g0) =~= h1 + b + x + v);
    assert forall|k: int| 0 <= k < 7 implies graph_encoding(g0)[3 + k] == g0.seed_view()[k] as u64 by {
        assert(h1[3 + k] == g0.seed_view().map_values(|w: u32| w as u64)[k]);
    }
}

/// Each row of an encoded table is shorter than the whole table.
proof fn lemma_enc_table_row_bound(t: Seq<Seq<usize>>, n: nat, q: int)
    requires
        0 <= q < n,
    ensures
        t[q].len() < enc_table(t, 0, n).len(),
{
    lemma_enc_table_split(t, 0, q as nat, n);
    assert(enc_table(t, q as nat, n) == enc_row(t[q]) + enc_table(t, (q + 1) as nat, n));
}

/// Where table `which` of an encoding starts, the words hold exactly that
/// table.
proof fn lemma_encoding_tables(g0: Graph, data: Seq<u64>, start: int, which: int)
    requires
        g0.wf(),
        graph_encoding(g0) == data,
        data.len() <= usize::MAX,
        0 <= which < 3,
        which == 0 ==> start == 10,
        which == 1 ==> start == 10 + enc_table(g0.bas_view(), 0, g0.node_count()).len(),
        which == 2 ==> start == 10 + enc_table(g0.bas_view(), 0, g0.node_count()).len()
            + enc_table(g0.exp_view(), 0, g0.node_count()).len(),
    ensures
        which == 0 ==> table_at(data, start, g0.node_count(), g0.bas_view()),
        which == 1 ==> table_at(data, start, g0.node_count(), g0.exp_view()),
        which == 2 ==> table_at(data, start, g0.node_count(), g0.exp_reversed_view()),
{
    let nc = g0.node_count();
    let h1 = seq![
        g0.node_count() as u64,
        g0.m() as u64,
        g0.d() as u64,
    ] + g0.seed_view().map_values(|w: u32| w as u64);
    assert(h1.len() == 10);
    let b = enc_table(g0.bas_view(), 0, nc);
    let x = enc_table(g0.exp_view(), 0, nc);
    let v = enc_table(g0.exp_reversed_view(), 0, nc);
    assert(data =~= h1 + b + x + v);
    let tv = if which == 0 {
        g0.bas_view()
    } else if which == 1 {
        g0.exp_view()
    } else {
        g0.exp_reversed_view()
    };
    let e = enc_table(tv, 0, nc);
    assert(data.subrange(start, start + e.len() as int) =~= e) by {
        assert forall|j: int| 0 <= j < e.len() implies data[start + j] == e[j] by {
            if which == 0 {
                assert(data[10 + j] == b[j]);
            } else if which == 1 {
                assert(data[h1.len() + b.len() + j] == x[j]);
            } else {
                assert(data[h1.len() + b.len() + x.len() + j] == v[j]);
            }
        }
    }
    assert forall|i: int| 0 <= i < nc implies (#[trigger] tv[i]).len() <= usize::MAX by {
        lemma_enc_table_row_bound(tv, nc, i);
    }
    assert forall|i: int, q: int|
        0 <= i < nc && 0 <= q < tv[i].len() implies (#[trigger] tv[i][q] as int) < nc as int by {
        if which == 0 {
            assert((g0.bas_view()[i][q] as int) < g0.node_count() as int);
        } else if which == 1 {
            assert((g0.exp_view()[i][q] as int) < g0.node_count() as int);
        } else {
            assert((g0.exp_reversed_view()[i][q] as int) < g0.node_count() as int);
        }
    }
}

/// The words from `start` hold exactly the encoding/// The words from `start` hold exactly the encoding of table `tv`: `nodes`
/// rows, every entry a valid node index, every row machine-sized.
pub open spec fn table_at(data: Seq<u64>, start: int, nodes: nat, tv: Seq<Seq<usize>>) -> bool {
    &&& tv.len() == nodes
    &&& 0 <= start
    &&& start + enc_table(tv, 0, nodes).len() <= data.len()
    &&& data.subrange(start, start + enc_table(tv, 0, nodes).len() as int) == enc_table(
        tv,
        0,
        nodes,
    )
    &&& forall|i: int, q: int|
        0 <= i < nodes && 0 <= q < tv[i].len() ==> (#[trigger] tv[i][q] as int) < nodes as int
    &&& forall|i: int| 0 <= i < nodes ==> (#[trigger] tv[i]).len() <= usize::MAX
}

/// An encoded table splits at any row boundary.
proof fn lemma_enc_table_split(t: Seq<Seq<usize>>, i: nat, k: nat, n: nat)
    requires
        i <= k <= n,
    ensures
        enc_table(t, i, n) == enc_table(t, i, k) + enc_table(t, k, n),
    decreases k - i,
{
    if i < k {
        lemma_enc_table_split(t, i + 1, k, n);
        assert(enc_table(t, i, n) == enc_row(t[i as int]) + enc_table(t, i + 1, n));
        assert(enc_table(t, i, k) == enc_row(t[i as int]) + enc_table(t, i + 1, k));
        assert(enc_row(t[i as int]) + (enc_table(t, i + 1, k) + enc_table(t, k, n)) =~= (enc_row(
            t[i as int],
        ) + enc_table(t, i + 1, k)) + enc_table(t, k, n));
    } else {
        assert(enc_table(t, i, k) =~= Seq::<u64>::empty());
        assert(enc_table(t, i, k) + enc_table(t, k, n) =~= enc_table(t, k, n));
    }
}

/// Parses one adjacency table of `nodes` length-prefixed rows, checking that
/// every entry is a valid node index. When the words at `start` are known to
/// hold the encoding of a table `tv`, the parse succeeds and restores `tv`
/// exactly, ending right after it.
fn parse_table(
    data: &Vec<u64>,
    start: usize,
    nodes: usize,
    Ghost(hyp): Ghost<bool>,
    Ghost(tv): Ghost<Seq<Seq<usize>>>,
) -> (r: Option<(Vec<Vec<usize>>, usize)>)
    requires
        start <= data@.len(),
        nodes as u64 == nodes as int,
        hyp ==> table_at(data@, start as int, nodes as nat, tv),
    ensures
        r matches Some(t) ==> t.0@.len() == nodes && start <= t.1 <= data@.len() && (forall|
            i: int,
            q: int,
        |
            0 <= i < nodes && 0 <= q < t.0@[i]@.len() ==> (#[trigger] t.0@[i]@[q] as int)
                < nodes as int),
        hyp ==> (r matches Some(t) && Seq::new(t.0@.len(), |i: int| t.0@[i]@) == tv && t.1
            == start + enc_table(tv, 0, nodes as nat).len()),
{
    let dl = data.len();
    let mut pos = start;
    let mut table: Vec<Vec<usize>> = Vec::new();
    let mut row_i: usize = 0;
    while row_i < nodes
        invariant
            row_i <= nodes,
            data@.len() == dl,
            start <= pos <= data@.len(),
            nodes as u64 == nodes as int,
            table@.len() == row_i,
            forall|i: int, q: int|
                0 <= i < row_i && 0 <= q < table@[i]@.len() ==> (#[trigger] table@[i]@[q] as int)
                    < nodes as int,
            hyp ==> table_at(data@, start as int, nodes as nat, tv),
            hyp ==> pos as int == start + enc_table(tv, 0, row_i as nat).len(),
            hyp ==> Seq::new(table@.len(), |q: int| table@[q]@) == tv.take(row_i as int),
        decreases nodes - row_i,
    {
        proof {
            if hyp {
                lemma_parse_row_facts(data@, start as int, nodes as nat, tv, row_i as nat);
            }
        }
        if pos >= data.len() {
            proof {
                if hyp {
                    assert(false);
                }
            }
            return None;
        }
        let len64 = data[pos];
        pos = pos + 1;
        if len64 > (data.len() - pos) as u64 {
            proof {
                if hyp {
                    assert(false);
                }
            }
            return None;
        }
        let len = len64 as usize;
        let mut row: Vec<usize> = Vec::new();
        let mut k: usize = 0;
        while k < len
            invariant
                k <= len,
                data@.len() == dl,
                row_i < nodes,
                len64 == len as u64,
                nodes as u64 == nodes as int,
                len <= data@.len() - pos + k,
                start <= pos <= data@.len(),
                row@.len() == k,
                forall|q: int| 0 <= q < k ==> (#[trigger] row@[q] as int) < nodes as int,
                hyp ==> table_at(data@, start as int, nodes as nat, tv),
                hyp ==> len == tv[row_i as int].len(),
                hyp ==> pos as int == start + enc_table(tv, 0, row_i as nat).len() + 1 + k,
                hyp ==> row@ == tv[row_i as int].take(k as int),
            decreases len - k,
        {
            proof {
                assert((pos as int) < data@.len());
                if hyp {
                    lemma_parse_entry_facts(
                        data@,
                        start as int,
                        nodes as nat,
                        tv,
                        row_i as nat,
                        k as nat,
                    );
                }
            }
            let v = data[pos];
            pos = pos + 1;
            if v >= nodes as u64 {
                proof {
                    if hyp {
                        assert(false);
                    }
                }
                return None;
            }
            row.push(v as usize);
            proof {
                if hyp {
                    assert(row@ =~= tv[row_i as int].take(k as int + 1));
                }
            }
            k = k + 1;
        }
        let ghost pre_table = table@;
        table.push(row);
        proof {
            assert forall|i: int, q: int|
                0 <= i < row_i + 1 && 0 <= q < table@[i]@.len() implies (
            #[trigger] table@[i]@[q] as int) < nodes as int by {
                if i < row_i {
                    assert(table@[i] == pre_table[i]);
                } else {
                    assert(table@[i] == row);
                }
            }
            if hyp {
                lemma_enc_table_split(tv, 0, row_i as nat, (row_i + 1) as nat);
                assert(enc_table(tv, row_i as nat, (row_i + 1) as nat) == enc_row(
                    tv[row_i as int],
                ) + enc_table(tv, (row_i + 1) as nat, (row_i + 1) as nat));
                assert(enc_table(tv, (row_i + 1) as nat, (row_i + 1) as nat) =~= Seq::<
                    u64,
                >::empty());
                assert(enc_table(tv, 0, (row_i + 1) as nat).len() == enc_table(
                    tv,
                    0,
                    row_i as nat,
                ).len() + 1 + tv[row_i as int].len());
                assert(row@ =~= tv[row_i as int]);
                assert(Seq::new(table@.len(), |q: int| table@[q]@) =~= tv.take(row_i as int + 1));
            }
        }
        row_i = row_i + 1;
    }
    proof {
        if hyp {
            assert(tv.take(nodes as int) =~= tv);
        }
    }
    Some((table, pos))
}

/// At a row boundary of an encoded table, the next word is the row's length
/// and the whole row still fits.
proof fn lemma_parse_row_facts(data: Seq<u64>, start: int, nodes: nat, tv: Seq<Seq<usize>>, i: nat)
    requires
        table_at(data, start, nodes, tv),
        i < nodes,
    ensures
        start + enc_table(tv, 0, i).len() + 1 + tv[i as int].len() <= start + enc_table(
            tv,
            0,
            nodes,
        ).len(),
        data[start + enc_table(tv, 0, i).len()] == tv[i as int].len() as u64,
{
    let full = enc_table(tv, 0, nodes);
    let pre = enc_table(tv, 0, i);
    lemma_enc_table_split(tv, 0, i, nodes);
    assert(enc_table(tv, i, nodes) == enc_row(tv[i as int]) + enc_table(tv, i + 1, nodes));
    assert(full[pre.len() as int] == enc_table(tv, i, nodes)[0]);
    assert(enc_row(tv[i as int])[0] == tv[i as int].len() as u64);
    assert(data[start + pre.len()] == data.subrange(start, start + full.len() as int)[pre.len() as int]);
}

/// Inside a row of an encoded table, the next word is the row's entry.
proof fn lemma_parse_entry_facts(
    data: Seq<u64>,
    start: int,
    nodes: nat,
    tv: Seq<Seq<usize>>,
    i: nat,
    k: nat,
)
    requires
        table_at(data, start, nodes, tv),
        i < nodes,
        k < tv[i as int].len(),
    ensures
        data[start + enc_table(tv, 0, i).len() + 1 + k] == tv[i as int][k as int] as u64,
{
    let full = enc_table(tv, 0, nodes);
    let pre = enc_table(tv, 0, i);
    lemma_enc_table_split(tv, 0, i, nodes);
    assert(enc_table(tv, i, nodes) == enc_row(tv[i as int]) + enc_table(tv, i + 1, nodes));
    assert(pre.len() + 1 + k < full.len());
    assert(full[(pre.len() + 1 + k) as int] == enc_table(tv, i, nodes)[(1 + k) as int]);
    assert(enc_row(tv[i as int])[(1 + k) as int] == tv[i as int].map_values(|p: usize| p as u64)[
        k as int]);
    assert(data[start + pre.len() + 1 + k] == data.subrange(
        start,
        start + full.len() as int,
    )[(pre.len() + 1 + k) as int]);
}

/// Word-stream equality.
/// Word-stream equality.
fn eq_words(a: &Vec<u64>, b: &Vec<u64>) -> (r: bool)
    ensures
        r == (a@ == b@),
{
    if a.len() != b.len() {
        proof {
            assert(a@ != b@);
        }
        return false;
    }
    let mut i: usize = 0;
    while i < a.len()
        invariant
            i <= a@.len(),
            a@.len() == b@.len(),
            forall|t: int| 0 <= t < i ==> a@[t] == b@[t],
        decreases a@.len() - i,
    {
        if a[i] != b[i] {
            proof {
                assert(a@ != b@);
            }
            return false;
        }
        i = i + 1;
    }
    proof {
        assert(a@ =~= b@);
    }
    true
}

/// Total entries in the first `n` rows of a table.
pub open spec fn total_rows(t: Seq<Seq<usize>>, n: nat) -> nat
    decreases n,
{
    if n == 0 {
        0
    } else {
        total_rows(t, (n - 1) as nat) + t[(n - 1) as int].len()
    }
}

/// Occurrences of target `j` summed over the forward lists of nodes < n.
spec fn cnt_sum(nodes: u64, d: u64, j: usize, n: nat) -> nat
    decreases n,
{
    if n == 0 {
        0
    } else {
        cnt_sum(nodes, d, j, (n - 1) as nat) + cnt(exp_parents_spec(nodes, d, (n - 1) as u64), j)
    }
}

/// The reverse list of `j` is as long as `j` has forward occurrences.
proof fn lemma_rev_contrib_len(nodes: u64, d: u64, j: usize, n: nat)
    ensures
        rev_contrib(nodes, d, j, n).len() == cnt_sum(nodes, d, j, n),
    decreases n,
{
    if n > 0 {
        lemma_rev_contrib_len(nodes, d, j, (n - 1) as nat);
    }
}

/// Occurrence counts of one row summed over all targets below `jmax`.
spec fn sum_cnt_row(s: Seq<usize>, jmax: nat) -> nat
    decreases jmax,
{
    if jmax == 0 {
        0
    } else {
        sum_cnt_row(s, (jmax - 1) as nat) + cnt(s, (jmax - 1) as usize)
    }
}

/// Reverse lengths summed over all targets below `jmax`, forward lists of
/// nodes < n.
spec fn sum_cnt_sum(nodes: u64, d: u64, jmax: nat, n: nat) -> nat
    decreases jmax,
{
    if jmax == 0 {
        0
    } else {
        sum_cnt_sum(nodes, d, (jmax - 1) as nat, n) + cnt_sum(nodes, d, (jmax - 1) as usize, n)
    }
}

/// Peeling one forward node out of the target-summed reverse lengths.
proof fn lemma_sum_cnt_sum_peel(nodes: u64, d: u64, jmax: nat, n: nat)
    requires
        n >= 1,
    ensures
        sum_cnt_sum(nodes, d, jmax, n) == sum_cnt_sum(nodes, d, jmax, (n - 1) as nat)
            + sum_cnt_row(exp_parents_spec(nodes, d, (n - 1) as u64), jmax),
    decreases jmax,
{
    if jmax > 0 {
        lemma_sum_cnt_sum_peel(nodes, d, (jmax - 1) as nat, n);
    }
}

/// Dropping the first entry of a row from its target-summed counts.
proof fn lemma_sum_cnt_row_step(s: Seq<usize>, jmax: nat)
    requires
        s.len() >= 1,
        jmax <= usize::MAX,
    ensures
        sum_cnt_row(s, jmax) == (if (s[0] as nat) < jmax {
            1nat
        } else {
            0nat
        }) + sum_cnt_row(s.drop_first(), jmax),
    decreases jmax,
{
    if jmax > 0 {
        lemma_sum_cnt_row_step(s, (jmax - 1) as nat);
        assert(cnt(s, (jmax - 1) as usize) == (if s[0] == (jmax - 1) as usize {
            1nat
        } else {
            0nat
        }) + cnt(s.drop_first(), (jmax - 1) as usize));
    }
}

/// A row whose entries all lie below `jmax` contributes its length.
proof fn lemma_sum_cnt_row_total(s: Seq<usize>, jmax: nat)
    requires
        jmax <= usize::MAX,
        forall|t: int| 0 <= t < s.len() ==> (#[trigger] s[t] as nat) < jmax,
    ensures
        sum_cnt_row(s, jmax) == s.len(),
    decreases s.len(),
{
    if s.len() == 0 {
        lemma_sum_cnt_row_empty(s, jmax);
    } else {
        lemma_sum_cnt_row_step(s, jmax);
        assert(forall|t: int|
            0 <= t < s.drop_first().len() ==> (#[trigger] s.drop_first()[t] as nat) < jmax);
        lemma_sum_cnt_row_total(s.drop_first(), jmax);
    }
}

proof fn lemma_sum_cnt_row_empty(s: Seq<usize>, jmax: nat)
    requires
        s.len() == 0,
    ensures
        sum_cnt_row(s, jmax) == 0,
    decreases jmax,
{
    if jmax > 0 {
        lemma_sum_cnt_row_empty(s, (jmax - 1) as nat);
    }
}

/// Reverse-edge totals: a generated graph holds exactly as many reverse
/// expander edges as forward ones.
pub proof fn lemma_reverse_edge_totals(g: Graph)
    requires
        g.generated(),
    ensures
        total_rows(g.exp_reversed_view(), g.node_count()) == total_rows(
            g.exp_view(),
            g.node_count(),
        ),
{
    let nc = g.node_count();
    let nodes = nc as u64;
    let d = g.d() as u64;
    lemma_total_rev(g, nc);
    lemma_total_fwd(g, nodes, d, nc);
}

/// The reverse total over the first `jm` targets equals the summed counts.
proof fn lemma_total_rev(g: Graph, jm: nat)
    requires
        g.generated(),
        jm <= g.node_count(),
    ensures
        total_rows(g.exp_reversed_view(), jm) == sum_cnt_sum(
            g.node_count() as u64,
            g.d() as u64,
            jm,
            g.node_count(),
        ),
    decreases jm,
{
    if jm > 0 {
        lemma_total_rev(g, (jm - 1) as nat);
        assert(g.exp_reversed_view()[(jm - 1) as int] == rev_contrib(
            g.node_count() as u64,
            g.d() as u64,
            (jm - 1) as usize,
            g.node_count(),
        ));
        lemma_rev_contrib_len(
            g.node_count() as u64,
            g.d() as u64,
            (jm - 1) as usize,
            g.node_count(),
        );
    }
}

/// The summed counts over all targets equal the forward total.
proof fn lemma_total_fwd(g: Graph, nodes: u64, d: u64, n: nat)
    requires
        g.generated(),
        nodes == g.node_count() as u64,
        d == g.d() as u64,
        n <= g.node_count(),
    ensures
        sum_cnt_sum(nodes, d, g.node_count(), n) == total_rows(g.exp_view(), n),
    decreases n,
{
    if n == 0 {
        lemma_sum_cnt_sum_zero(nodes, d, g.node_count());
    } else {
        lemma_total_fwd(g, nodes, d, (n - 1) as nat);
        lemma_sum_cnt_sum_peel(nodes, d, g.node_count(), n);
        let row = exp_parents_spec(nodes, d, (n - 1) as u64);
        assert(g.exp_view()[(n - 1) as int] == row);
        assert(forall|t: int| 0 <= t < row.len() ==> (#[trigger] row[t] as nat) < g.node_count());
        lemma_sum_cnt_row_total(row, g.node_count());
    }
}

proof fn lemma_sum_cnt_sum_zero(nodes: u64, d: u64, jmax: nat)
    ensures
        sum_cnt_sum(nodes, d, jmax, 0) == 0,
    decreases jmax,
{
    if jmax > 0 {
        lemma_sum_cnt_sum_zero(nodes, d, (jmax - 1) as nat);
    }
}

/// Peeling encoded tables: equal streams with equal row counts decode to
/// equal rows and equal remainders.
proof fn lemma_enc_table_injective(
    t1: Seq<Seq<usize>>,
    t2: Seq<Seq<usize>>,
    i: nat,
    n: nat,
    rest1: Seq<u64>,
    rest2: Seq<u64>,
)
    requires
        i <= n,
        n <= t1.len(),
        n <= t2.len(),
        forall|q: int| i <= q < n ==> (#[trigger] t1[q]).len() <= usize::MAX,
        forall|q: int| i <= q < n ==> (#[trigger] t2[q]).len() <= usize::MAX,
        enc_table(t1, i, n) + rest1 == enc_table(t2, i, n) + rest2,
    ensures
        forall|q: int| i <= q < n ==> t1[q] == t2[q],
        rest1 == rest2,
    decreases n - i,
{
    if i >= n {
        assert(enc_table(t1, i, n) =~= Seq::<u64>::empty());
        assert(enc_table(t2, i, n) =~= Seq::<u64>::empty());
        assert(rest1 =~= rest2);
    } else {
        let r1 = t1[i as int];
        let r2 = t2[i as int];
        let e = enc_table(t1, i, n) + rest1;
        assert(enc_table(t1, i, n) == enc_row(r1) + enc_table(t1, i + 1, n));
        assert(enc_table(t2, i, n) == enc_row(r2) + enc_table(t2, i + 1, n));
        let tail1 = enc_table(t1, i + 1, n) + rest1;
        let tail2 = enc_table(t2, i + 1, n) + rest2;
        assert(e =~= enc_row(r1) + tail1);
        assert(e =~= enc_row(r2) + tail2);
        assert(enc_row(r1)[0] == r1.len() as u64);
        assert(enc_row(r2)[0] == r2.len() as u64);
        assert(e[0] == enc_row(r1)[0]);
        assert(e[0] == enc_row(r2)[0]);
        assert(r1.len() == r2.len());
        assert forall|k: int| 0 <= k < r1.len() implies r1[k] == r2[k] by {
            assert(enc_row(r1)[1 + k] == r1.map_values(|p: usize| p as u64)[k]);
            assert(enc_row(r2)[1 + k] == r2.map_values(|p: usize| p as u64)[k]);
            assert(e[1 + k] == enc_row(r1)[1 + k]);
            assert(e[1 + k] == enc_row(r2)[1 + k]);
        }
        assert(r1 =~= r2);
        assert(tail1 =~= tail2) by {
            assert(tail1.len() == tail2.len());
            assert forall|q: int| 0 <= q < tail1.len() implies tail1[q] == tail2[q] by {
                assert(tail1[q] == e[enc_row(r1).len() + q]);
                assert(tail2[q] == e[enc_row(r2).len() + q]);
            }
        }
        lemma_enc_table_injective(t1, t2, i + 1, n, rest1, rest2);
    }
}

/// The persisted form pins the graph down: equal encodings mean equal
/// parameters, seed and adjacency, so decoding an encoding restores exactly
/// the encoded graph.
pub proof fn lemma_encoding_injective(g1: Graph, g2: Graph)
    requires
        g1.wf(),
        g2.wf(),
        forall|q: int| 0 <= q < g1.node_count() ==> (#[trigger] g1.bas_view()[q]).len()
            <= usize::MAX,
        forall|q: int| 0 <= q < g1.node_count() ==> (#[trigger] g1.exp_view()[q]).len()
            <= usize::MAX,
        forall|q: int| 0 <= q < g1.node_count() ==> (#[trigger] g1.exp_reversed_view()[q]).len()
            <= usize::MAX,
        forall|q: int| 0 <= q < g2.node_count() ==> (#[trigger] g2.bas_view()[q]).len()
            <= usize::MAX,
        forall|q: int| 0 <= q < g2.node_count() ==> (#[trigger] g2.exp_view()[q]).len()
            <= usize::MAX,
        forall|q: int| 0 <= q < g2.node_count() ==> (#[trigger] g2.exp_reversed_view()[q]).len()
            <= usize::MAX,
        graph_encoding(g1) == graph_encoding(g2),
    ensures
        g1.node_count() == g2.node_count(),
        g1.m() == g2.m(),
        g1.d() == g2.d(),
        g1.seed_view() == g2.seed_view(),
        g1.bas_view() == g2.bas_view(),
        g1.exp_view() == g2.exp_view(),
        g1.exp_reversed_view() == g2.exp_reversed_view(),
{
    let e = graph_encoding(g1);
    let nc = g1.node_count();
    assert(e[0] == g1.node_count() as u64 && e[1] == g1.m() as u64 && e[2] == g1.d() as u64);
    assert(e[0] == g2.node_count() as u64 && e[1] == g2.m() as u64 && e[2] == g2.d() as u64);
    assert forall|k: int| 0 <= k < 7 implies g1.seed_view()[k] == g2.seed_view()[k] by {
        assert(e[3 + k] == g1.seed_view().map_values(|w: u32| w as u64)[k]);
        assert(e[3 + k] == g2.seed_view().map_values(|w: u32| w as u64)[k]);
    }
    assert(g1.seed_view() =~= g2.seed_view());
    let h1 = seq![
        g1.node_count() as u64,
        g1.m() as u64,
        g1.d() as u64,
    ] + g1.seed_view().map_values(|w: u32| w as u64);
    let b1 = enc_table(g1.bas_view(), 0, nc);
    let x1 = enc_table(g1.exp_view(), 0, nc);
    let v1 = enc_table(g1.exp_reversed_view(), 0, nc);
    let b2 = enc_table(g2.bas_view(), 0, nc);
    let x2 = enc_table(g2.exp_view(), 0, nc);
    let v2 = enc_table(g2.exp_reversed_view(), 0, nc);
    assert(h1 + b1 + x1 + v1 =~= h1 + (b1 + (x1 + v1)));
    assert(h1 + b2 + x2 + v2 =~= h1 + (b2 + (x2 + v2)));
    assert(graph_encoding(g1) =~= h1 + b1 + x1 + v1);
    assert(graph_encoding(g2) =~= h1 + b2 + x2 + v2);
    assert(b1 + (x1 + v1) =~= b2 + (x2 + v2)) by {
        let w1 = h1 + (b1 + (x1 + v1));
        let w2 = h1 + (b2 + (x2 + v2));
        assert(w1 == w2);
        assert forall|q: int| 0 <= q < (b1 + (x1 + v1)).len() implies (b1 + (x1 + v1))[q] == (b2
            + (x2 + v2))[q] by {
            assert((b1 + (x1 + v1))[q] == w1[h1.len() + q]);
            assert((b2 + (x2 + v2))[q] == w2[h1.len() + q]);
        }
    }
    lemma_enc_table_injective(
        g1.bas_view(),
        g2.bas_view(),
        0,
        nc,
        x1 + v1,
        x2 + v2,
    );
    assert(g1.bas_view() =~= g2.bas_view());
    assert(x1 + v1 =~= x2 + v2);
    assert(x1 + v1 == x1 + (v1 + Seq::<u64>::empty())) by {
        assert(v1 + Seq::<u64>::empty() =~= v1);
    }
    assert(x2 + v2 == x2 + (v2 + Seq::<u64>::empty())) by {
        assert(v2 + Seq::<u64>::empty() =~= v2);
    }
    lemma_enc_table_injective(g1.exp_view(), g2.exp_view(), 0, nc, v1, v2);
    assert(g1.exp_view() =~= g2.exp_view());
    lemma_enc_table_injective(
        g1.exp_reversed_view(),
        g2.exp_reversed_view(),
        0,
        nc,
        Seq::empty(),
        Seq::empty(),
    );
    assert(g1.exp_reversed_view() =~= g2.exp_reversed_view());
}

} // verus!
