use vstd::prelude::*;
use vstd::arithmetic::power2::{
    lemma2_to64, lemma_pow2_adds, lemma_pow2_pos, lemma_pow2_strictly_increases, lemma_pow2_unfold, pow2,
};

use crate::address::Ipv4;

verus! {

/// What `ipnetwork` reads from a block's text: its address value and prefix
/// length, or nothing when the text is not a valid IPv4 block.
pub uninterp spec fn parsed_block(s: Seq<char>) -> Option<(u32, u8)>;

/// Relies on ipnetwork's `FromStr for Ipv4Network` together with
/// `Ipv4Network::ip` and `Ipv4Network::prefix`: the block text is read into
/// an address and a prefix length; `Ipv4Network::new`, which parsing ends in,
/// refuses a prefix above 32.
#[verifier::external_body]
fn parse_block(s: &str) -> (r: Option<(u32, u8)>)
    ensures
        r == parsed_block(s@),
        r matches Some(b) ==> b.1 <= 32,
{
    match s.parse::<ipnetwork::Ipv4Network>() {
        Ok(n) => Some((u32::from(n.ip()), n.prefix())),
        Err(_) => None,
    }
}

/// Number of addresses in a block with prefix length `p`.
pub open spec fn block_size(p: u8) -> nat {
    pow2((32 - p) as nat)
}

/// The network address of the block holding `ip` with prefix length `p`:
/// `ip` with its host bits cleared.
pub open spec fn block_base(ip: u32, p: u8) -> nat {
    (ip as nat / block_size(p)) * block_size(p)
}

/// Every address of a block, network and broadcast addresses included, in
/// ascending order.
pub open spec fn block_addrs(b: (u32, u8)) -> Seq<Ipv4> {
    Seq::new(block_size(b.1), |k: int| Ipv4 { bits: (block_base(b.0, b.1) + k) as u32 })
}

/// The texts of a list of strings.
pub open spec fn texts(v: Seq<String>) -> Seq<Seq<char>> {
    v.map_values(|s: String| s@)
}

/// Whether every block text parses.
pub open spec fn all_parse(blocks: Seq<Seq<char>>) -> bool {
    forall|j: int| 0 <= j < blocks.len() ==> (#[trigger] parsed_block(blocks[j])) is Some
}

/// The concatenated expansions of blocks that all parse, in block order.
pub open spec fn expansion(blocks: Seq<Seq<char>>) -> Seq<Ipv4>
    decreases blocks.len(),
{
    if blocks.len() == 0 {
        Seq::empty()
    } else {
        expansion(blocks.drop_last()) + block_addrs(parsed_block(blocks.last()).unwrap())
    }
}

/// A block text that could not be read, and its place in the input.
#[derive(Clone, Debug)]
pub struct ParseError {
    pub index: usize,
    pub block: String,
}

/// `pow2(32)` as a number.
proof fn lemma_pow2_32()
    ensures
        pow2(32) == 0x1_0000_0000,
{
    lemma2_to64();
}

/// A block lies wholly inside the 32-bit address space.
proof fn lemma_block_fits(ip: u32, p: u8)
    requires
        p <= 32,
    ensures
        block_size(p) > 0,
        block_base(ip, p) + block_size(p) <= 0x1_0000_0000,
{
    let s = block_size(p);
    let h = (32 - p) as nat;
    lemma_pow2_pos(h);
    lemma_pow2_pos(p as nat);
    lemma_pow2_adds(h, p as nat);
    lemma_pow2_32();
    let n = pow2(p as nat);
    let q = ip as nat / s;
    assert(s * n == 0x1_0000_0000);
    assert(q * s <= ip as nat) by (nonlinear_arith)
        requires q == ip as nat / s, s > 0;
    assert(q < n) by (nonlinear_arith)
        requires q * s <= ip as nat, (ip as nat) < s * n, s > 0;
    assert(q * s + s <= n * s) by (nonlinear_arith)
        requires q < n, s > 0;
}

/// Computes `block_size(p)`.
fn block_size_of(p: u8) -> (r: u64)
    requires
        p <= 32,
    ensures
        r as nat == block_size(p),
{
    let h: u8 = 32 - p;
    let mut r: u64 = 1;
    let mut i: u8 = 0;
    proof {
        lemma2_to64();
    }
    while i < h
        invariant
            i <= h <= 32,
            r as nat == pow2(i as nat),
        decreases h - i,
    {
        proof {
            lemma_pow2_unfold((i + 1) as nat);
            lemma_pow2_strictly_increases((i + 1) as nat, 33);
            lemma2_to64();
        }
        r = r * 2;
        i = i + 1;
    }
    r
}

/// Appends every address of the block `(ip, p)` to `out`.
fn push_block(out: &mut Vec<Ipv4>, ip: u32, p: u8)
    requires
        p <= 32,
    ensures
        final(out)@ == old(out)@ + block_addrs((ip, p)),
{
    let size = block_size_of(p);
    proof {
        lemma_block_fits(ip, p);
    }
    let base: u64 = (ip as u64 / size) * size;
    let ghost start = out@;
    let mut j: u64 = 0;
    while j < size
        invariant
            j <= size,
            size as nat == block_size(p),
            base as nat == block_base(ip, p),
            base + size <= 0x1_0000_0000,
            out@ == start + block_addrs((ip, p)).take(j as int),
        decreases size - j,
    {
        out.push(Ipv4 { bits: (base + j) as u32 });
        j = j + 1;
        proof {
            assert(block_addrs((ip, p)).take(j as int) =~= block_addrs((ip, p)).take(j - 1).push(
                Ipv4 { bits: (base + j - 1) as u32 },
            ));
        }
    }
    proof {
        assert(block_addrs((ip, p)).take(j as int) =~= block_addrs((ip, p)));
    }
}

/// A valid block with prefix length `p` expands to exactly `2^(32-p)`
/// addresses: its network address first, its broadcast address last, and
/// every address between them once, ascending.
pub proof fn lemma_block_expansion(s: Seq<char>)
    requires
        parsed_block(s) matches Some(b) && b.1 <= 32,
    ensures
        ({
            let (ip, p) = parsed_block(s).unwrap();
            let e = expansion(seq![s]);
            &&& e.len() == pow2((32 - p) as nat)
            &&& e[0].bits == block_base(ip, p)
            &&& e.last().bits == block_base(ip, p) + pow2((32 - p) as nat) - 1
            &&& forall|k: int| 0 <= k < e.len() ==> (#[trigger] e[k]).bits == block_base(ip, p) + k
        }),
{
    let (ip, p) = parsed_block(s).unwrap();
    lemma_block_fits(ip, p);
    let one = seq![s];
    assert(one.drop_last() =~= Seq::<Seq<char>>::empty());
    assert(one.last() == s);
    assert(expansion(Seq::<Seq<char>>::empty()) == Seq::<Ipv4>::empty());
    assert(expansion(one) == Seq::<Ipv4>::empty() + block_addrs((ip, p)));
    assert(expansion(one) =~= block_addrs((ip, p)));
}

/// Expands every block into its addresses, keeping block order and, within a
/// block, ascending address order. The first block that does not parse fails
/// the whole call, and no address is returned.
pub fn expand_blocks(cidrs: &Vec<String>) -> (r: Result<Vec<Ipv4>, ParseError>)
    ensures
        r is Ok <==> all_parse(texts(cidrs@)),
        r matches Ok(v) ==> v@ == expansion(texts(cidrs@)),
        r matches Err(e) ==> {
            &&& e.index < cidrs@.len()
            &&& e.block@ == cidrs@[e.index as int]@
            &&& parsed_block(cidrs@[e.index as int]@) is None
            &&& all_parse(texts(cidrs@).take(e.index as int))
        },
{
    let ghost t = texts(cidrs@);
    let mut out: Vec<Ipv4> = Vec::new();
    let mut i: usize = 0;
    while i < cidrs.len()
        invariant
            i <= cidrs@.len(),
            t == texts(cidrs@),
            all_parse(t.take(i as int)),
            out@ == expansion(t.take(i as int)),
        decreases cidrs@.len() - i,
    {
        let s = cidrs[i].as_str();
        match parse_block(s) {
            None => {
                let block = cidrs[i].clone();
                proof {
                    assert(t[i as int] == cidrs@[i as int]@);
                    if all_parse(t) {
                        assert(parsed_block(t[i as int]) is Some);
                    }
                }
                return Err(ParseError { index: i, block });
            },
            Some(b) => {
                push_block(&mut out, b.0, b.1);
                proof {
                    assert(t.take(i + 1).drop_last() =~= t.take(i as int));
                    assert(t[i as int] == cidrs@[i as int]@);
                    assert forall|j: int| 0 <= j < i + 1 implies (#[trigger] parsed_block(
                        t.take(i + 1)[j],
                    )) is Some by {
                        if j < i {
                            assert(t.take(i + 1)[j] == t.take(i as int)[j]);
                        }
                    }
                }
            },
        }
        i = i + 1;
    }
    proof {
        assert(t.take(i as int) =~= t);
    }
    Ok(out)
}

} // verus!
