//! Text helpers: decimal rendering, membership, and the option shuffle.
use vstd::prelude::*;
use vstd::string::StringExecFns;

verus! {

pub open spec fn digit_char(d: nat) -> char {
    if d == 0 { '0' } else if d == 1 { '1' } else if d == 2 { '2' } else if d == 3 { '3' }
    else if d == 4 { '4' } else if d == 5 { '5' } else if d == 6 { '6' } else if d == 7 { '7' }
    else if d == 8 { '8' } else { '9' }
}

/// The decimal digits of `n`, most significant first, without leading
/// zeros ("0" for zero).
pub open spec fn decimal(n: nat) -> Seq<char>
    decreases n,
{
    if n < 10 {
        seq![digit_char(n)]
    } else {
        decimal(n / 10).push(digit_char(n % 10))
    }
}

proof fn lemma_digit_injective(a: nat, b: nat)
    requires
        a < 10,
        b < 10,
        digit_char(a) == digit_char(b),
    ensures
        a == b,
{
}

/// A decimal rendering has one digit below ten and at least two from ten.
pub proof fn lemma_decimal_len(n: nat)
    ensures
        decimal(n).len() >= 1,
        n >= 10 ==> decimal(n).len() >= 2,
    decreases n,
{
    if n >= 10 {
        lemma_decimal_len(n / 10);
    }
}

/// Different numbers have different decimal renderings.
pub proof fn lemma_decimal_injective(a: nat, b: nat)
    requires
        decimal(a) == decimal(b),
    ensures
        a == b,
    decreases a,
{
    lemma_decimal_len(a);
    lemma_decimal_len(b);
    if a < 10 && b < 10 {
        assert(decimal(a)[0] == digit_char(a));
        assert(decimal(b)[0] == digit_char(b));
        lemma_digit_injective(a, b);
    } else if a >= 10 && b >= 10 {
        assert(decimal(a).last() == digit_char(a % 10));
        assert(decimal(b).last() == digit_char(b % 10));
        lemma_digit_injective(a % 10, b % 10);
        assert(decimal(a).drop_last() =~= decimal(a / 10));
        assert(decimal(b).drop_last() =~= decimal(b / 10));
        lemma_decimal_injective(a / 10, b / 10);
    }
}

fn digit_str(d: u128) -> (s: &'static str)
    requires
        d < 10,
    ensures
        s@ == seq![digit_char(d as nat)],
{
    if d == 0 {
        proof { reveal_strlit("0"); }
        "0"
    } else if d == 1 {
        proof { reveal_strlit("1"); }
        "1"
    } else if d == 2 {
        proof { reveal_strlit("2"); }
        "2"
    } else if d == 3 {
        proof { reveal_strlit("3"); }
        "3"
    } else if d == 4 {
        proof { reveal_strlit("4"); }
        "4"
    } else if d == 5 {
        proof { reveal_strlit("5"); }
        "5"
    } else if d == 6 {
        proof { reveal_strlit("6"); }
        "6"
    } else if d == 7 {
        proof { reveal_strlit("7"); }
        "7"
    } else if d == 8 {
        proof { reveal_strlit("8"); }
        "8"
    } else {
        proof { reveal_strlit("9"); }
        "9"
    }
}

/// Appends the decimal digits of `n` to `s`.
pub fn push_decimal(s: &mut String, n: u128)
    ensures
        final(s)@ == old(s)@ + decimal(n as nat),
    decreases n,
{
    if n < 10 {
        s.append(digit_str(n));
    } else {
        push_decimal(s, n / 10);
        s.append(digit_str(n % 10));
        assert(final(s)@ =~= old(s)@ + decimal(n as nat));
    }
}

/// The decimal rendering of `n`.
pub fn decimal_string(n: u128) -> (s: String)
    ensures
        s@ == decimal(n as nat),
{
    let mut s = String::new();
    push_decimal(&mut s, n);
    assert(s@ =~= decimal(n as nat));
    s
}

/// Whether `target` occurs in `v`.
pub fn contains_string(v: &Vec<String>, target: &String) -> (r: bool)
    ensures
        r == exists|i: int| 0 <= i < v@.len() && v@[i]@ == target@,
{
    let mut i: usize = 0;
    while i < v.len()
        invariant
            0 <= i <= v@.len(),
            forall|k: int| 0 <= k < i ==> v@[k]@ != target@,
        decreases v@.len() - i,
    {
        if v[i] == *target {
            return true;
        }
        i += 1;
    }
    false
}

/// One step of the linear congruential generator behind the shuffle:
/// `(seed * 1664525 + 1013904223) mod 2^64`, then reduced mod `0xFFFF_FFFF`.
#[verifier::opaque]
pub open spec fn lcg_step(seed: u64) -> u64 {
    (((seed * 1664525 + 1013904223) % 0x1_0000_0000_0000_0000) % 0xFFFF_FFFF) as u64
}

/// The Fisher-Yates shuffle of the first `j` places of `s` (from the back),
/// with the generator at `seed`.
pub open spec fn shuffled<T>(s: Seq<T>, seed: u64, j: nat) -> Seq<T>
    decreases j,
{
    if j <= 1 {
        s
    } else {
        let k = (j - 1) as nat;
        let next = lcg_step(seed);
        let r = (next % (j as u64)) as int;
        let swapped = s.update(k as int, s[r]).update(r, s[k as int]);
        shuffled(swapped, next, k)
    }
}

proof fn lemma_swap_multiset<T>(s: Seq<T>, k: int, r: int)
    requires
        0 <= k < s.len(),
        0 <= r < s.len(),
    ensures
        s.update(k, s[r]).update(r, s[k]).to_multiset() == s.to_multiset(),
{
    let a = s[k];
    let b = s[r];
    let t = s.update(k, b);
    let swapped = t.update(r, a);
    if r == k {
        assert(swapped =~= s);
    } else {
        vstd::seq_lib::to_multiset_update(s, k, b);
        assert(t[r] == b);
        vstd::seq_lib::to_multiset_update(t, r, a);
        vstd::seq_lib::to_multiset_contains(s, a);
        vstd::seq_lib::to_multiset_contains(s, b);
        let m0 = s.to_multiset();
        assert(m0.count(a) > 0);
        assert(m0.count(b) > 0);
        assert(m0.insert(b).remove(a).insert(a).remove(b) =~= m0) by {
            broadcast use vstd::multiset::group_multiset_axioms;
        }
    }
}

/// The shuffle only reorders.
pub proof fn lemma_shuffled_permutes<T>(s: Seq<T>, seed: u64, j: nat)
    requires
        j <= s.len(),
        j <= u64::MAX,
    ensures
        shuffled(s, seed, j).len() == s.len(),
        shuffled(s, seed, j).to_multiset() == s.to_multiset(),
    decreases j,
{
    if j > 1 {
        let k = (j - 1) as nat;
        let next = lcg_step(seed);
        let r = (next % (j as u64)) as int;
        assert(0 <= r < j) by (nonlinear_arith)
            requires
                r == (next % (j as u64)) as int,
                j > 1,
                j <= u64::MAX;
        lemma_swap_multiset(s, k as int, r);
        let swapped = s.update(k as int, s[r]).update(r, s[k as int]);
        lemma_shuffled_permutes(swapped, next, k);
    }
}

/// Shuffles `arr` in place order with a Fisher-Yates pass driven by the
/// generator seeded with `seed`.
pub fn shuffle_strings(arr: Vec<String>, seed: u64) -> (r: Vec<String>)
    ensures
        r@ == shuffled(arr@, seed, arr@.len()),
{
    let mut result = arr;
    let mut current_seed = seed;
    let mut j = result.len();
    while j > 1
        invariant
            j <= result@.len(),
            result@.len() == arr@.len(),
            shuffled(result@, current_seed, j as nat) == shuffled(arr@, seed, arr@.len()),
        decreases j,
    {
        let ghost before = result@;
        let ghost before_seed = current_seed;
        j -= 1;
        let product: u128 = (current_seed as u128) * 1664525 + 1013904223;
        current_seed = ((product % 0x1_0000_0000_0000_0000) % 0xFFFF_FFFF) as u64;
        proof { reveal(lcg_step); }
        let rand_idx = (current_seed % (j as u64 + 1)) as usize;
        if j != rand_idx {
            let a = result[j].clone();
            let b = result[rand_idx].clone();
            result.set(j, b);
            result.set(rand_idx, a);
        }
        proof {
            let r = rand_idx as int;
            let k = j as int;
            assert(result@ =~= before.update(k, before[r]).update(r, before[k]));
        }
    }
    result
}

} // verus!
