//! Pseudo-random selection of distinct numbers from a seed and ledger
//! entropy, through SHA-256.
use vstd::prelude::*;
use soroban_sdk::{Bytes, Env};
use crate::errors::Error;
use crate::types::Ledger;

verus! {

/// The host environment of a contract call, through which the host's
/// cryptographic functions are reached. Opaque to the library.
#[verifier::external_type_specification]
#[verifier::external_body]
pub struct HostEnv(Env);

/// The SHA-256 digest of `data`.
pub uninterp spec fn sha256_of(data: Seq<u8>) -> Seq<u8>;

/// Calls `soroban_sdk::crypto::Crypto::sha256` through `env` and returns
/// the digest's 32 bytes. The contract claims that the digest is a fixed
/// function of the input bytes (whatever the environment), and that it has
/// 32 bytes.
#[verifier::external_body]
fn sha256(env: &Env, data: &Vec<u8>) -> (r: Vec<u8>)
    ensures
        r@ == sha256_of(data@),
        r@.len() == 32,
{
    let bytes = Bytes::from_slice(env, data.as_slice());
    env.crypto().sha256(&bytes).to_array().to_vec()
}

/// The eight big-endian bytes of `x`.
pub open spec fn be_bytes(x: u64) -> Seq<u8> {
    seq![
        ((x / 0x100000000000000) % 256) as u8,
        ((x / 0x1000000000000) % 256) as u8,
        ((x / 0x10000000000) % 256) as u8,
        ((x / 0x100000000) % 256) as u8,
        ((x / 0x1000000) % 256) as u8,
        ((x / 0x10000) % 256) as u8,
        ((x / 0x100) % 256) as u8,
        (x % 256) as u8,
    ]
}

/// The number whose big-endian bytes are `b`.
pub open spec fn be_value(b: Seq<u8>) -> nat
    decreases b.len(),
{
    if b.len() == 0 {
        0
    } else {
        be_value(b.drop_last()) * 256 + (b.last() as nat)
    }
}

/// The 32 bytes hashed for draw `i`: seed, ledger sequence, ledger timestamp
/// and `i`, each as eight big-endian bytes.
pub open spec fn draw_input(seed: u64, ledger: Ledger, i: u64) -> Seq<u8> {
    be_bytes(seed) + be_bytes(ledger.sequence as u64) + be_bytes(ledger.timestamp) + be_bytes(i)
}

/// Draw `i`: the first eight digest bytes read as a big-endian number,
/// reduced modulo `limit`, plus one when the numbers are card ids.
#[verifier::opaque]
pub open spec fn draw(seed: u64, ledger: Ledger, limit: u64, for_index: bool, i: u64) -> u64 {
    let r = be_value(sha256_of(draw_input(seed, ledger, i)).take(8)) % (limit as nat);
    if for_index { r as u64 } else { (r + 1) as u64 }
}

/// The pool of candidates after `n` steps of a partial Fisher–Yates
/// shuffle of `0..limit`: step `i` swaps place `i` with place
/// `i + (draw i modulo limit - i)`.
pub open spec fn shuffle_pool(seed: u64, ledger: Ledger, limit: u64, n: nat) -> Seq<u64>
    decreases n,
{
    if n == 0 {
        Seq::new(limit as nat, |k: int| k as u64)
    } else {
        let p = shuffle_pool(seed, ledger, limit, (n - 1) as nat);
        let i = (n - 1) as int;
        let j = i + draw(seed, ledger, (limit - i) as u64, true, i as u64);
        p.update(i, p[j]).update(j, p[i])
    }
}

/// The `amount` numbers selected from `0..limit` (shifted to `1..=limit`
/// when they are card ids, `for_index` false): the first `amount` places of
/// the pool after `amount` shuffle steps. `None` for an impossible request.
#[verifier::opaque]
pub open spec fn random_selection(seed: u64, ledger: Ledger, amount: u64, limit: u64, for_index: bool) -> Option<Seq<u64>> {
    if 0 < limit && amount <= limit {
        Some(shuffle_pool(seed, ledger, limit, amount as nat).take(amount as int)
            .map_values(|v: u64| if for_index { v } else { (v + 1) as u64 }))
    } else {
        None
    }
}

/// A draw lies in its range.
pub proof fn lemma_draw_range(seed: u64, ledger: Ledger, limit: u64, for_index: bool, i: u64)
    requires
        limit > 0,
    ensures
        for_index ==> draw(seed, ledger, limit, for_index, i) < limit,
        !for_index ==> 1 <= draw(seed, ledger, limit, for_index, i) <= limit,
{
    reveal(draw);
}

/// Up to `limit` steps, the pool holds `limit` distinct numbers below
/// `limit`.
pub proof fn lemma_shuffle_pool(seed: u64, ledger: Ledger, limit: u64, n: nat)
    requires
        n <= limit,
    ensures
        shuffle_pool(seed, ledger, limit, n).len() == limit,
        forall|a: int, b: int| 0 <= a < b < limit ==> shuffle_pool(seed, ledger, limit, n)[a] != shuffle_pool(seed, ledger, limit, n)[b],
        forall|k: int| 0 <= k < limit ==> #[trigger] shuffle_pool(seed, ledger, limit, n)[k] < limit,
    decreases n,
{
    if n > 0 {
        lemma_shuffle_pool(seed, ledger, limit, (n - 1) as nat);
        let p = shuffle_pool(seed, ledger, limit, (n - 1) as nat);
        let i = (n - 1) as int;
        lemma_draw_range(seed, ledger, (limit - i) as u64, true, i as u64);
        let j = i + draw(seed, ledger, (limit - i) as u64, true, i as u64);
        let q = shuffle_pool(seed, ledger, limit, n);
        assert(q == p.update(i, p[j]).update(j, p[i]));
        assert forall|a: int, b: int| 0 <= a < b < limit implies q[a] != q[b] by {
            let a2 = if a == i { j } else if a == j { i } else { a };
            let b2 = if b == i { j } else if b == j { i } else { b };
            assert(q[a] == p[a2]);
            assert(q[b] == p[b2]);
            if a2 < b2 {
                assert(p[a2] != p[b2]);
            } else {
                assert(p[b2] != p[a2]);
            }
        }
        assert forall|k: int| 0 <= k < limit implies #[trigger] q[k] < limit by {
            let k2 = if k == i { j } else if k == j { i } else { k };
            assert(q[k] == p[k2]);
        }
    }
}

/// A possible request selects `amount` positions, each below `limit`.
pub proof fn lemma_selection_range(seed: u64, ledger: Ledger, amount: u64, limit: u64)
    requires
        0 < limit,
        amount <= limit,
    ensures
        random_selection(seed, ledger, amount, limit, true) is Some,
        random_selection(seed, ledger, amount, limit, true)->0.len() == amount,
        forall|k: int| 0 <= k < amount ==> #[trigger] random_selection(seed, ledger, amount, limit, true)->0[k] < limit,
{
    reveal(random_selection);
    lemma_shuffle_pool(seed, ledger, limit, amount as nat);
}

/// Asking for one number yields the first draw.
pub proof fn lemma_single_selection(seed: u64, ledger: Ledger, limit: u64, for_index: bool)
    requires
        limit > 0,
    ensures
        random_selection(seed, ledger, 1, limit, for_index) == Some(seq![draw(seed, ledger, limit, for_index, 0)]),
{
    reveal(random_selection);
    reveal(draw);
    let p0 = shuffle_pool(seed, ledger, limit, 0);
    let j = draw(seed, ledger, limit, true, 0);
    let p1 = shuffle_pool(seed, ledger, limit, 1);
    assert(p1 == p0.update(0, p0[j as int]).update(j as int, p0[0]));
    assert(p1[0] == j);
    let sel = p1.take(1).map_values(|v: u64| if for_index { v } else { (v + 1) as u64 });
    assert(sel =~= seq![draw(seed, ledger, limit, for_index, 0)]);
}

fn push_be_bytes(buf: &mut Vec<u8>, x: u64)
    ensures
        final(buf)@ == old(buf)@ + be_bytes(x),
{
    buf.push((x / 0x100000000000000 % 256) as u8);
    buf.push((x / 0x1000000000000 % 256) as u8);
    buf.push((x / 0x10000000000 % 256) as u8);
    buf.push((x / 0x100000000 % 256) as u8);
    buf.push((x / 0x1000000 % 256) as u8);
    buf.push((x / 0x10000 % 256) as u8);
    buf.push((x / 0x100 % 256) as u8);
    buf.push((x % 256) as u8);
    assert(final(buf)@ =~= old(buf)@ + be_bytes(x));
}

pub open spec fn pow256(k: nat) -> nat
    decreases k,
{
    if k == 0 { 1 } else { 256 * pow256((k - 1) as nat) }
}

fn be_u64_prefix(b: &Vec<u8>) -> (r: u64)
    requires
        b@.len() >= 8,
    ensures
        r == be_value(b@.take(8)),
{
    let mut acc: u64 = 0;
    let mut k: usize = 0;
    while k < 8
        invariant
            b@.len() >= 8,
            0 <= k <= 8,
            acc == be_value(b@.take(k as int)),
            acc < pow256(k as nat),
        decreases 8 - k,
    {
        proof {
            assert(b@.take(k as int + 1).drop_last() =~= b@.take(k as int));
            assert(pow256(k as nat + 1) == 256 * pow256(k as nat));
            assert(pow256(8) == 0x1_0000_0000_0000_0000) by {
                reveal_with_fuel(pow256, 9);
            }
            if k < 7 {
                lemma_pow256_mono(k as nat + 1, 8);
            }
        }
        acc = acc * 256 + b[k] as u64;
        k += 1;
    }
    acc
}

proof fn lemma_pow256_mono(a: nat, b: nat)
    requires
        a <= b,
    ensures
        pow256(a) <= pow256(b),
    decreases b - a,
{
    if a < b {
        lemma_pow256_mono(a, (b - 1) as nat);
        assert(pow256(b) == 256 * pow256((b - 1) as nat));
    }
}

/// Draw `i`, computed.
fn compute_draw(env: &Env, seed: u64, ledger: Ledger, limit: u64, for_index: bool, i: u64) -> (r: u64)
    requires
        limit > 0,
    ensures
        r == draw(seed, ledger, limit, for_index, i),
{
    let mut buf: Vec<u8> = Vec::new();
    push_be_bytes(&mut buf, seed);
    push_be_bytes(&mut buf, ledger.sequence as u64);
    push_be_bytes(&mut buf, ledger.timestamp);
    push_be_bytes(&mut buf, i);
    assert(buf@ =~= draw_input(seed, ledger, i));
    let hash = sha256(env, &buf);
    proof { reveal(draw); }
    draw_from_digest(&hash, limit, for_index)
}

/// The number a draw yields from its digest: the first eight bytes read as
/// a big-endian number, reduced modulo `limit`, plus one when the numbers
/// are card ids (`for_index` false).
pub fn draw_from_digest(digest: &Vec<u8>, limit: u64, for_index: bool) -> (r: u64)
    requires
        digest@.len() >= 8,
        limit > 0,
    ensures
        r == if for_index {
            be_value(digest@.take(8)) % (limit as nat)
        } else {
            be_value(digest@.take(8)) % (limit as nat) + 1
        },
{
    let rand_u64 = be_u64_prefix(digest);
    let rand = rand_u64 % limit;
    if for_index { rand } else { rand + 1 }
}

/// Returns `amount` distinct numbers below `limit` (or, when they are card
/// ids and `for_index` is false, in `1..=limit`), chosen by a partial
/// Fisher–Yates shuffle of the range driven by draws 0, 1, ...,
/// `amount - 1` (see [`random_selection`]), in `O(limit)` steps.
///
/// Fails with `AmountExceedsLimit` when more numbers are asked for than the
/// range holds, and with `LimitMustBeGreaterThanZero` on an empty range.
pub fn get_random_numbers(env: &Env, seed: u64, amount: u64, limit: u64, for_index: bool, ledger: Ledger) -> (r: Result<Vec<u64>, Error>)
    ensures
        amount > limit ==> r == Err::<Vec<u64>, Error>(Error::AmountExceedsLimit),
        amount <= limit && limit == 0 ==> r == Err::<Vec<u64>, Error>(Error::LimitMustBeGreaterThanZero),
        amount <= limit && limit > 0 ==> (r matches Ok(v) && random_selection(seed, ledger, amount, limit, for_index) == Some(v@)),
        r matches Ok(v) ==> v@.len() == amount,
        r matches Ok(v) ==> forall|i: int, j: int| 0 <= i < j < v@.len() ==> v@[i] != v@[j],
        r matches Ok(v) ==> forall|i: int| 0 <= i < v@.len() ==>
            if for_index { #[trigger] v@[i] < limit } else { 1 <= #[trigger] v@[i] <= limit },
{
    proof { reveal(random_selection); }
    if amount > limit {
        return Err(Error::AmountExceedsLimit);
    }
    if limit == 0 {
        return Err(Error::LimitMustBeGreaterThanZero);
    }
    let mut pool: Vec<u64> = Vec::new();
    let mut k: u64 = 0;
    while k < limit
        invariant
            k <= limit,
            pool@ == Seq::new(k as nat, |x: int| x as u64),
        decreases limit - k,
    {
        pool.push(k);
        k += 1;
        assert(pool@ =~= Seq::new(k as nat, |x: int| x as u64));
    }
    assert(pool@ =~= shuffle_pool(seed, ledger, limit, 0));
    assert(pool.len() == limit);
    let mut i: u64 = 0;
    while i < amount
        invariant
            0 < limit,
            amount <= limit,
            i <= amount,
            limit <= usize::MAX,
            pool@ == shuffle_pool(seed, ledger, limit, i as nat),
        decreases amount - i,
    {
        proof {
            lemma_shuffle_pool(seed, ledger, limit, i as nat);
            lemma_draw_range(seed, ledger, (limit - i) as u64, true, i);
        }
        let step = compute_draw(env, seed, ledger, limit - i, true, i);
        let j = i + step;
        let ghost before = pool@;
        let a = pool[i as usize];
        let b = pool[j as usize];
        pool.set(i as usize, b);
        pool.set(j as usize, a);
        proof {
            let gi = i as int;
            let p = shuffle_pool(seed, ledger, limit, gi as nat);
            assert(before == p);
            assert(((gi + 1) as nat - 1) as nat == gi as nat);
            assert(shuffle_pool(seed, ledger, limit, (gi + 1) as nat)
                == p.update(gi, p[gi + step]).update(gi + step, p[gi]));
            assert(pool@ =~= p.update(gi, p[gi + step]).update(gi + step, p[gi]));
        }
        i += 1;
    }
    proof { lemma_shuffle_pool(seed, ledger, limit, amount as nat); }
    let ghost sel = shuffle_pool(seed, ledger, limit, amount as nat).take(amount as int)
        .map_values(|v: u64| if for_index { v } else { (v + 1) as u64 });
    let mut numbers: Vec<u64> = Vec::new();
    let mut k: u64 = 0;
    while k < amount
        invariant
            amount <= limit,
            k <= amount,
            limit <= usize::MAX,
            pool@ == shuffle_pool(seed, ledger, limit, amount as nat),
            pool@.len() == limit,
            forall|x: int| 0 <= x < limit ==> #[trigger] pool@[x] < limit,
            sel == shuffle_pool(seed, ledger, limit, amount as nat).take(amount as int)
                .map_values(|v: u64| if for_index { v } else { (v + 1) as u64 }),
            numbers@ == sel.take(k as int),
        decreases amount - k,
    {
        let v = pool[k as usize];
        assert(v < limit);
        numbers.push(if for_index { v } else { v + 1 });
        k += 1;
        assert(numbers@ =~= sel.take(k as int));
    }
    assert(numbers@ =~= sel);
    proof {
        assert forall|x: int, y: int| 0 <= x < y < numbers@.len() implies numbers@[x] != numbers@[y] by {
            assert(pool@[x] != pool@[y]);
        }
        assert forall|x: int| 0 <= x < numbers@.len() implies
            if for_index { #[trigger] numbers@[x] < limit } else { 1 <= #[trigger] numbers@[x] <= limit } by {
            assert(pool@[x] < limit);
        }
    }
    Ok(numbers)
}

} // verus!
