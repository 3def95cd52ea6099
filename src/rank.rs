use vstd::prelude::*;

use crate::address::Ipv4;
use crate::sample::min_len;

verus! {

broadcast use vstd::seq_lib::group_seq_properties, vstd::seq_lib::group_to_multiset_ensures;

/// A successful probe: the address and the milliseconds from the start of
/// its connection attempt to the end of its secure handshake.
#[derive(Clone, Copy, PartialEq, Eq, Structural, Debug)]
pub struct ProbeResult {
    pub addr: Ipv4,
    pub latency_ms: u128,
}

/// Inserts `x` into `s` after every element whose latency is at most that of
/// `x`, scanning from the end: the insertion step of a stable sort.
pub open spec fn insert_by_latency(s: Seq<ProbeResult>, x: ProbeResult) -> Seq<ProbeResult>
    decreases s.len(),
{
    if s.len() == 0 {
        seq![x]
    } else if s.last().latency_ms <= x.latency_ms {
        s.push(x)
    } else {
        insert_by_latency(s.drop_last(), x).push(s.last())
    }
}

/// `s` sorted by ascending latency; equal latencies keep their order in `s`.
pub open spec fn sorted_by_latency(s: Seq<ProbeResult>) -> Seq<ProbeResult>
    decreases s.len(),
{
    if s.len() == 0 {
        Seq::empty()
    } else {
        insert_by_latency(sorted_by_latency(s.drop_last()), s.last())
    }
}

/// Whether latencies never decrease along `s`.
pub open spec fn ascending(s: Seq<ProbeResult>) -> bool {
    forall|a: int, b: int| 0 <= a <= b < s.len() ==> s[a].latency_ms <= s[b].latency_ms
}

/// The `n` fastest results, fastest first, ties in their original order.
pub open spec fn ranked(s: Seq<ProbeResult>, n: nat) -> Seq<ProbeResult> {
    sorted_by_latency(s).take(min_len(n, s.len()) as int)
}

/// The successful outcomes, in order, each with its latency.
pub open spec fn successes(o: Seq<(Ipv4, Option<u128>)>) -> Seq<ProbeResult>
    decreases o.len(),
{
    if o.len() == 0 {
        Seq::empty()
    } else {
        match o.last().1 {
            Some(l) => successes(o.drop_last()).push(ProbeResult { addr: o.last().0, latency_ms: l }),
            None => successes(o.drop_last()),
        }
    }
}

/// Inserting at a position that follows every element no slower than `x`
/// and precedes every slower one is the insertion step.
proof fn lemma_insert_at(s: Seq<ProbeResult>, x: ProbeResult, j: int)
    requires
        0 <= j <= s.len(),
        j > 0 ==> s[j - 1].latency_ms <= x.latency_ms,
        forall|k: int| j <= k < s.len() ==> s[k].latency_ms > x.latency_ms,
    ensures
        insert_by_latency(s, x) == s.insert(j, x),
    decreases s.len(),
{
    if s.len() == 0 {
        assert(s.insert(j, x) =~= seq![x]);
    } else if j == s.len() {
        assert(s.insert(j, x) =~= s.push(x));
    } else {
        lemma_insert_at(s.drop_last(), x, j);
        assert(s.drop_last().insert(j, x).push(s.last()) =~= s.insert(j, x));
    }
}

/// The insertion step keeps the order and adds exactly `x`.
proof fn lemma_insert_props(s: Seq<ProbeResult>, x: ProbeResult)
    requires
        ascending(s),
    ensures
        ascending(insert_by_latency(s, x)),
        insert_by_latency(s, x).to_multiset() == s.to_multiset().insert(x),
        insert_by_latency(s, x).len() == s.len() + 1,
    decreases s.len(),
{
    if s.len() == 0 {
        assert(seq![x] =~= Seq::<ProbeResult>::empty().push(x));
    } else if s.last().latency_ms <= x.latency_ms {
    } else {
        let d = s.drop_last();
        assert(ascending(d));
        lemma_insert_props(d, x);
        let t = insert_by_latency(d, x);
        assert(s =~= d.push(s.last()));
        assert(t.to_multiset().insert(s.last()) =~= d.to_multiset().insert(s.last()).insert(x));
        assert forall|k: int| 0 <= k < t.len() implies t[k].latency_ms <= s.last().latency_ms by {
            assert(t.to_multiset().count(t[k]) > 0);
            assert(d.to_multiset().insert(x).count(t[k]) > 0);
            if t[k] != x {
                assert(d.to_multiset().count(t[k]) > 0);
                assert(d.contains(t[k]));
            }
        }
    }
}

/// The stable sort is ascending and a permutation of its input.
pub proof fn lemma_sorted_props(s: Seq<ProbeResult>)
    ensures
        ascending(sorted_by_latency(s)),
        sorted_by_latency(s).to_multiset() == s.to_multiset(),
        sorted_by_latency(s).len() == s.len(),
    decreases s.len(),
{
    if s.len() > 0 {
        lemma_sorted_props(s.drop_last());
        lemma_insert_props(sorted_by_latency(s.drop_last()), s.last());
        assert(s =~= s.drop_last().push(s.last()));
    }
}

/// Sorts by ascending latency, stably.
fn sort_by_latency(results: &Vec<ProbeResult>) -> (r: Vec<ProbeResult>)
    ensures
        r@ == sorted_by_latency(results@),
{
    let mut out: Vec<ProbeResult> = Vec::new();
    let mut i: usize = 0;
    while i < results.len()
        invariant
            i <= results@.len(),
            out@ == sorted_by_latency(results@.take(i as int)),
        decreases results@.len() - i,
    {
        let x = results[i];
        proof {
            lemma_sorted_props(results@.take(i as int));
        }
        let mut j: usize = out.len();
        while j > 0 && out[j - 1].latency_ms > x.latency_ms
            invariant
                j <= out@.len(),
                forall|k: int| j <= k < out@.len() ==> out@[k].latency_ms > x.latency_ms,
            decreases j,
        {
            j = j - 1;
        }
        proof {
            lemma_insert_at(out@, x, j as int);
            assert(results@.take(i + 1).drop_last() =~= results@.take(i as int));
        }
        out.insert(j, x);
        i = i + 1;
    }
    proof {
        assert(results@.take(i as int) =~= results@);
    }
    out
}

/// Keeps the `n` fastest results, fastest first; results of equal latency
/// keep the order they came in.
pub fn rank_results(results: &Vec<ProbeResult>, n: usize) -> (r: Vec<ProbeResult>)
    ensures
        r@ == ranked(results@, n as nat),
        r@.len() == min_len(n as nat, results@.len()),
        ascending(r@),
{
    let mut sorted = sort_by_latency(results);
    proof {
        lemma_sorted_props(results@);
    }
    if n < sorted.len() {
        sorted.truncate(n);
    }
    proof {
        assert(sorted@ =~= ranked(results@, n as nat));
    }
    sorted
}

/// Keeps the outcomes that succeeded, as probe results, in their order.
pub fn collect_successes(outcomes: &Vec<(Ipv4, Option<u128>)>) -> (r: Vec<ProbeResult>)
    ensures
        r@ == successes(outcomes@),
{
    let mut out: Vec<ProbeResult> = Vec::new();
    let mut i: usize = 0;
    while i < outcomes.len()
        invariant
            i <= outcomes@.len(),
            out@ == successes(outcomes@.take(i as int)),
        decreases outcomes@.len() - i,
    {
        let (addr, latency) = outcomes[i];
        proof {
            assert(outcomes@.take(i + 1).drop_last() =~= outcomes@.take(i as int));
        }
        match latency {
            Some(l) => {
                out.push(ProbeResult { addr, latency_ms: l });
            },
            None => {},
        }
        i = i + 1;
    }
    proof {
        assert(outcomes@.take(i as int) =~= outcomes@);
    }
    out
}

/// Ranks the successful outcomes of a round of probes: failed attempts leave
/// no record, and the `n` fastest successes come back fastest first.
pub fn rank_outcomes(outcomes: &Vec<(Ipv4, Option<u128>)>, n: usize) -> (r: Vec<ProbeResult>)
    ensures
        r@ == ranked(successes(outcomes@), n as nat),
        r@.len() == min_len(n as nat, successes(outcomes@).len()),
        ascending(r@),
{
    let ok = collect_successes(outcomes);
    rank_results(&ok, n)
}

/// With no address to probe nothing is attempted, and ranking the outcomes
/// of no attempt gives an empty result.
pub proof fn lemma_nothing_probed(budget: nat, n: nat)
    ensures
        min_len(budget, 0) == 0,
        ranked(successes(Seq::empty()), n) == Seq::<ProbeResult>::empty(),
{
    assert(ranked(successes(Seq::empty()), n) =~= Seq::<ProbeResult>::empty());
}

/// Outcomes that all failed hold no success.
proof fn lemma_all_failed(outcomes: Seq<(Ipv4, Option<u128>)>)
    requires
        forall|k: int| 0 <= k < outcomes.len() ==> (#[trigger] outcomes[k]).1 is None,
    ensures
        successes(outcomes).len() == 0,
    decreases outcomes.len(),
{
    if outcomes.len() > 0 {
        let d = outcomes.drop_last();
        assert forall|k: int| 0 <= k < d.len() implies (#[trigger] d[k]).1 is None by {
            assert(d[k] == outcomes[k]);
        }
        lemma_all_failed(d);
        assert(outcomes.last() == outcomes[outcomes.len() - 1]);
    }
}

/// When every attempt failed (timed out or was refused), ranking yields an
/// empty result, whatever the number asked for.
pub proof fn lemma_no_success_no_result(outcomes: Seq<(Ipv4, Option<u128>)>, n: nat)
    requires
        forall|k: int| 0 <= k < outcomes.len() ==> (#[trigger] outcomes[k]).1 is None,
    ensures
        ranked(successes(outcomes), n) == Seq::<ProbeResult>::empty(),
{
    lemma_all_failed(outcomes);
    lemma_sorted_props(successes(outcomes));
    assert(ranked(successes(outcomes), n) =~= Seq::<ProbeResult>::empty());
}

/// The ranked result holds `min(n, number of successes)` entries, in
/// ascending latency, each one of the successful probes.
pub proof fn lemma_ranked_shape(s: Seq<ProbeResult>, n: nat)
    ensures
        ranked(s, n).len() == min_len(n, s.len()),
        ascending(ranked(s, n)),
        forall|k: int| 0 <= k < ranked(s, n).len() ==> s.contains(#[trigger] ranked(s, n)[k]),
{
    lemma_sorted_props(s);
    let t = sorted_by_latency(s);
    assert forall|k: int| 0 <= k < ranked(s, n).len() implies s.contains(#[trigger] ranked(s, n)[k]) by {
        assert(ranked(s, n)[k] == t[k]);
        assert(t.contains(t[k]));
        assert(t.to_multiset().count(t[k]) > 0);
    }
}

} // verus!
