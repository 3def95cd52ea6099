use vstd::prelude::*;

use crate::address::Ipv4;

verus! {

/// Relies on rand's `seq::index::sample`, driven by a `StdRng` seeded with
/// `seed`: it returns exactly `amount` distinct indices below `length`. It
/// panics when `amount > length`, and (by a debug assertion of its rejection
/// sampler) when `amount == length` with `length` above `u32::MAX`.
#[verifier::external_body]
fn random_indices(seed: u64, length: usize, amount: usize) -> (r: Vec<usize>)
    requires
        amount <= length,
        amount < length || length <= u32::MAX as usize,
    ensures
        r@.len() == amount,
        r@.no_duplicates(),
        forall|k: int| 0 <= k < r@.len() ==> r@[k] < length,
{
    let mut rng = <rand::rngs::StdRng as rand::SeedableRng>::seed_from_u64(seed);
    rand::seq::index::sample(&mut rng, length, amount).into_vec()
}

/// Relies on rand's `SliceRandom::shuffle`, driven by a `StdRng` seeded with
/// `seed`: it only swaps items of `v`, so the same items stay.
#[verifier::external_body]
fn shuffle_positions(seed: u64, v: &mut Vec<usize>)
    ensures
        final(v)@.to_multiset() == old(v)@.to_multiset(),
{
    let mut rng = <rand::rngs::StdRng as rand::SeedableRng>::seed_from_u64(seed);
    rand::seq::SliceRandom::shuffle(v.as_mut_slice(), &mut rng);
}

/// The positions `0..n`, ascending.
fn all_positions(n: usize) -> (r: Vec<usize>)
    ensures
        r@ == Seq::new(n as nat, |k: int| k as usize),
{
    let mut out: Vec<usize> = Vec::new();
    let mut i: usize = 0;
    while i < n
        invariant
            i <= n,
            out@ == Seq::new(i as nat, |k: int| k as usize),
        decreases n - i,
    {
        out.push(i);
        i = i + 1;
        proof {
            assert(out@ =~= Seq::new(i as nat, |k: int| k as usize));
        }
    }
    out
}

/// Every position of a pool of `n` items, in random order.
fn shuffled_positions(seed: u64, n: usize) -> (r: Vec<usize>)
    ensures
        r@.len() == n,
        distinct_positions(r@, n as nat),
{
    let mut v = all_positions(n);
    let ghost before = v@;
    shuffle_positions(seed, &mut v);
    proof {
        broadcast use vstd::seq_lib::group_to_multiset_ensures;

        assert(v@.len() == v@.to_multiset().len());
        assert(before.len() == before.to_multiset().len());
        before.lemma_multiset_has_no_duplicates();
        assert forall|x: usize| v@.to_multiset().contains(x) implies v@.to_multiset().count(x)
            == 1 by {
            assert(before.to_multiset().contains(x));
        }
        v@.lemma_multiset_has_no_duplicates_conv();
        assert forall|k: int| 0 <= k < v@.len() implies (#[trigger] v@[k] as nat) < n by {
            assert(v@.contains(v@[k]));
            assert(v@.to_multiset().count(v@[k]) > 0);
            assert(before.contains(v@[k]));
        }
    }
    v
}

/// The items of `pool` at the positions `idx`, in the order of `idx`.
pub open spec fn picked(pool: Seq<Ipv4>, idx: Seq<usize>) -> Seq<Ipv4> {
    idx.map_values(|k: usize| pool[k as int])
}

/// Whether `idx` names distinct positions of a pool of `n` items.
pub open spec fn distinct_positions(idx: Seq<usize>, n: nat) -> bool {
    idx.no_duplicates() && forall|k: int| 0 <= k < idx.len() ==> (#[trigger] idx[k] as nat) < n
}

/// The smaller of two sizes.
pub open spec fn min_len(a: nat, b: nat) -> nat {
    if a < b {
        a
    } else {
        b
    }
}

/// Takes from `pool` the items at the positions `idx`, in that order.
pub fn pick(pool: &Vec<Ipv4>, idx: &Vec<usize>) -> (r: Vec<Ipv4>)
    requires
        forall|k: int| 0 <= k < idx@.len() ==> (#[trigger] idx@[k] as nat) < pool@.len(),
    ensures
        r@ == picked(pool@, idx@),
{
    let mut out: Vec<Ipv4> = Vec::new();
    let mut i: usize = 0;
    while i < idx.len()
        invariant
            i <= idx@.len(),
            forall|k: int| 0 <= k < idx@.len() ==> (#[trigger] idx@[k] as nat) < pool@.len(),
            out@ == picked(pool@, idx@.take(i as int)),
        decreases idx@.len() - i,
    {
        out.push(pool[idx[i]]);
        i = i + 1;
        proof {
            assert(picked(pool@, idx@.take(i as int)) =~= picked(pool@, idx@.take(i - 1)).push(
                pool@[idx@[i - 1] as int],
            ));
        }
    }
    proof {
        assert(idx@.take(i as int) =~= idx@);
    }
    out
}

/// Items taken at distinct positions of a pool without repeated addresses
/// are themselves free of repeats.
pub proof fn lemma_distinct_picks(pool: Seq<Ipv4>, idx: Seq<usize>)
    requires
        pool.no_duplicates(),
        distinct_positions(idx, pool.len()),
    ensures
        picked(pool, idx).no_duplicates(),
{
    let r = picked(pool, idx);
    assert forall|a: int, b: int| 0 <= a < r.len() && 0 <= b < r.len() && a != b implies r[a]
        != r[b] by {
        assert(idx[a] != idx[b]);
        assert(r[a] == pool[idx[a] as int]);
        assert(r[b] == pool[idx[b] as int]);
    }
}

/// Draws `min(budget, pool.len())` items of `pool` at distinct positions,
/// chosen at random from a generator seeded with `seed`. An empty pool gives
/// an empty selection. Whatever the draw, the selection never repeats a
/// position, so a pool without repeated addresses gives a selection without
/// repeats.
pub fn sample_pool(pool: &Vec<Ipv4>, budget: usize, seed: u64) -> (r: Vec<Ipv4>)
    ensures
        r@.len() == min_len(budget as nat, pool@.len()),
        exists|idx: Seq<usize>|
            distinct_positions(idx, pool@.len()) && r@ == #[trigger] picked(pool@, idx),
        pool@.no_duplicates() ==> r@.no_duplicates(),
{
    let amount = if budget < pool.len() {
        budget
    } else {
        pool.len()
    };
    let idx = if amount < pool.len() {
        random_indices(seed, pool.len(), amount)
    } else {
        shuffled_positions(seed, pool.len())
    };
    let r = pick(pool, &idx);
    proof {
        assert(distinct_positions(idx@, pool@.len()));
        if pool@.no_duplicates() {
            lemma_distinct_picks(pool@, idx@);
        }
    }
    r
}

} // verus!
