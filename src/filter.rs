use vstd::prelude::*;
use vstd::utf8::encode_utf8;

use crate::address::{dotted, Ipv4};

verus! {

broadcast use vstd::seq_lib::group_seq_properties;

/// Whether `s` begins with `p`, byte for byte.
pub open spec fn starts_with(s: Seq<u8>, p: Seq<u8>) -> bool {
    p.len() <= s.len() && s.take(p.len() as int) == p
}

/// The UTF-8 bytes of each string.
pub open spec fn prefix_bytes(v: Seq<String>) -> Seq<Seq<u8>> {
    v.map_values(|s: String| encode_utf8(s@))
}

/// Whether the decimal-dotted text of `a` begins with one of `prefixes`.
pub open spec fn excluded(a: Ipv4, prefixes: Seq<Seq<u8>>) -> bool {
    exists|j: int| 0 <= j < prefixes.len() && starts_with(dotted(a.bits), #[trigger] prefixes[j])
}

/// The addresses of `ips` that no prefix excludes, in their order.
pub open spec fn kept(ips: Seq<Ipv4>, prefixes: Seq<Seq<u8>>) -> Seq<Ipv4> {
    ips.filter(|a: Ipv4| !excluded(a, prefixes))
}

/// Whether the bytes `s` begin with the bytes `p`.
fn has_prefix(s: &Vec<u8>, p: &[u8]) -> (r: bool)
    ensures
        r == starts_with(s@, p@),
{
    if p.len() > s.len() {
        return false;
    }
    let mut i: usize = 0;
    while i < p.len()
        invariant
            p@.len() <= s@.len(),
            i <= p@.len(),
            s@.take(i as int) == p@.take(i as int),
        decreases p@.len() - i,
    {
        if s[i] != p[i] {
            proof {
                assert(s@.take(p@.len() as int)[i as int] != p@[i as int]);
            }
            return false;
        }
        i = i + 1;
        proof {
            assert(s@.take(i as int) =~= s@.take(i - 1).push(s@[i - 1]));
            assert(p@.take(i as int) =~= p@.take(i - 1).push(p@[i - 1]));
        }
    }
    proof {
        assert(p@.take(i as int) =~= p@);
    }
    true
}

/// Whether the text of `a` begins with one of `skip_prefixes`.
fn is_excluded(a: &Ipv4, skip_prefixes: &[String]) -> (r: bool)
    ensures
        r == excluded(*a, prefix_bytes(skip_prefixes@)),
{
    let text = a.dotted_bytes();
    let ghost ps = prefix_bytes(skip_prefixes@);
    let mut j: usize = 0;
    while j < skip_prefixes.len()
        invariant
            j <= skip_prefixes@.len(),
            text@ == dotted(a.bits),
            ps == prefix_bytes(skip_prefixes@),
            forall|k: int| 0 <= k < j ==> !starts_with(dotted(a.bits), #[trigger] ps[k]),
        decreases skip_prefixes@.len() - j,
    {
        let p = skip_prefixes[j].as_str().as_bytes();
        if has_prefix(&text, p) {
            proof {
                assert(ps[j as int] == encode_utf8(skip_prefixes@[j as int]@));
            }
            return true;
        }
        proof {
            assert(ps[j as int] == encode_utf8(skip_prefixes@[j as int]@));
        }
        j = j + 1;
    }
    false
}

/// Drops every address whose decimal-dotted text begins with one of
/// `skip_prefixes` (a plain textual match, not a network containment test).
/// The addresses that stay keep their order; with no prefixes the input is
/// returned as it is.
pub fn filter_ips_by_prefix(ips: Vec<Ipv4>, skip_prefixes: &[String]) -> (r: Vec<Ipv4>)
    ensures
        r@ == kept(ips@, prefix_bytes(skip_prefixes@)),
        skip_prefixes@.len() == 0 ==> r@ == ips@,
{
    let ghost ps = prefix_bytes(skip_prefixes@);
    if skip_prefixes.len() == 0 {
        proof {
            assert(ps =~= Seq::<Seq<u8>>::empty());
            lemma_no_prefix_keeps_all(ips@);
        }
        return ips;
    }
    let ghost pred = |a: Ipv4| !excluded(a, ps);
    let mut out: Vec<Ipv4> = Vec::new();
    let mut i: usize = 0;
    while i < ips.len()
        invariant
            i <= ips@.len(),
            ps == prefix_bytes(skip_prefixes@),
            pred == (|a: Ipv4| !excluded(a, ps)),
            out@ == ips@.take(i as int).filter(pred),
        decreases ips@.len() - i,
    {
        let a = ips[i];
        let drop = is_excluded(&a, skip_prefixes);
        proof {
            assert(ips@.take(i + 1) =~= ips@.take(i as int).push(a));
            ips@.take(i as int).lemma_filter_push(a, pred);
        }
        if !drop {
            out.push(a);
        }
        i = i + 1;
    }
    proof {
        assert(ips@.take(i as int) =~= ips@);
    }
    out
}

/// With no prefixes, filtering keeps every address, in the same order.
pub proof fn lemma_no_prefix_keeps_all(ips: Seq<Ipv4>)
    ensures
        kept(ips, Seq::empty()) == ips,
    decreases ips.len(),
{
    let pred = |a: Ipv4| !excluded(a, Seq::<Seq<u8>>::empty());
    if ips.len() > 0 {
        lemma_no_prefix_keeps_all(ips.drop_last());
        assert(ips.drop_last().push(ips.last()) =~= ips);
        ips.drop_last().lemma_filter_push(ips.last(), pred);
    } else {
        assert(ips.filter(pred) =~= ips);
    }
}

/// Filtering removes exactly the addresses whose text begins with a listed
/// prefix: an address is in the result if and only if it is in the input and
/// no prefix excludes it.
pub proof fn lemma_filter_removes_exactly(ips: Seq<Ipv4>, prefixes: Seq<Seq<u8>>, a: Ipv4)
    ensures
        kept(ips, prefixes).contains(a) <==> (ips.contains(a) && !excluded(a, prefixes)),
{
    let pred = |x: Ipv4| !excluded(x, prefixes);
    if kept(ips, prefixes).contains(a) {
        let k = choose|k: int| 0 <= k < kept(ips, prefixes).len() && kept(ips, prefixes)[k] == a;
        ips.lemma_filter_pred(pred, k);
        ips.lemma_filter_contains_rev(pred, a);
    }
    if ips.contains(a) && !excluded(a, prefixes) {
        let k = choose|k: int| 0 <= k < ips.len() && ips[k] == a;
        ips.lemma_filter_contains(pred, k);
    }
}

/// Whether `a` is `b` with some items left out, the rest in their order.
pub open spec fn is_subsequence(a: Seq<Ipv4>, b: Seq<Ipv4>) -> bool {
    exists|f: Seq<int>|
        #![trigger f.len()]
        f.len() == a.len() && (forall|i: int, j: int| 0 <= i < j < f.len() ==> f[i] < f[j]) && (
        forall|i: int| 0 <= i < f.len() ==> 0 <= #[trigger] f[i] < b.len() && a[i] == b[f[i]])
}

/// The positions in `ips` of the addresses that filtering keeps, ascending.
proof fn lemma_kept_positions(ips: Seq<Ipv4>, prefixes: Seq<Seq<u8>>) -> (f: Seq<int>)
    ensures
        f.len() == kept(ips, prefixes).len(),
        forall|i: int, j: int| 0 <= i < j < f.len() ==> f[i] < f[j],
        forall|i: int|
            0 <= i < f.len() ==> 0 <= #[trigger] f[i] < ips.len() && kept(ips, prefixes)[i]
                == ips[f[i]],
    decreases ips.len(),
{
    let pred = |a: Ipv4| !excluded(a, prefixes);
    if ips.len() == 0 {
        assert(kept(ips, prefixes) =~= Seq::<Ipv4>::empty()) by {
            ips.lemma_filter_len(pred);
        }
        Seq::empty()
    } else {
        let d = ips.drop_last();
        let g = lemma_kept_positions(d, prefixes);
        assert(d.push(ips.last()) =~= ips);
        d.lemma_filter_push(ips.last(), pred);
        if pred(ips.last()) {
            let f = g.push(ips.len() - 1);
            assert forall|i: int| 0 <= i < f.len() implies 0 <= #[trigger] f[i] < ips.len()
                && kept(ips, prefixes)[i] == ips[f[i]] by {
                if i < g.len() {
                    assert(kept(ips, prefixes)[i] == kept(d, prefixes)[i]);
                    assert(ips[f[i]] == d[g[i]]);
                }
            }
            f
        } else {
            assert forall|i: int| 0 <= i < g.len() implies 0 <= #[trigger] g[i] < ips.len()
                && kept(ips, prefixes)[i] == ips[g[i]] by {
                assert(ips[g[i]] == d[g[i]]);
            }
            g
        }
    }
}

/// Filtering keeps the input's order and removes only excluded addresses:
/// the result is a subsequence of the input, an address that no prefix
/// excludes occurs in it as often as in the input, and an excluded one not
/// at all.
pub proof fn lemma_filter_subsequence_counts(ips: Seq<Ipv4>, prefixes: Seq<Seq<u8>>, a: Ipv4)
    ensures
        is_subsequence(kept(ips, prefixes), ips),
        kept(ips, prefixes).to_multiset().count(a) == (if excluded(a, prefixes) {
            0
        } else {
            ips.to_multiset().count(a)
        }),
    decreases ips.len(),
{
    broadcast use vstd::seq_lib::group_to_multiset_ensures;

    let f = lemma_kept_positions(ips, prefixes);
    assert(f.len() == kept(ips, prefixes).len());
    let pred = |x: Ipv4| !excluded(x, prefixes);
    if ips.len() == 0 {
        ips.lemma_filter_len(pred);
        assert(kept(ips, prefixes) =~= Seq::<Ipv4>::empty());
    } else {
        let d = ips.drop_last();
        lemma_filter_subsequence_counts(d, prefixes, a);
        assert(d.push(ips.last()) =~= ips);
        d.lemma_filter_push(ips.last(), pred);
    }
}

} // verus!
