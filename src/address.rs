use vstd::prelude::*;

verus! {

/// One IPv4 address, held as its 32-bit big-endian value.
#[derive(Clone, Copy, PartialEq, Eq, Structural, Debug)]
pub struct Ipv4 {
    pub bits: u32,
}

/// ASCII code of the digit `d` (for `d < 10`).
pub open spec fn digit_byte(d: nat) -> u8 {
    (48 + d) as u8
}

/// Canonical decimal rendering of `n`: no leading zeros, "0" for zero.
pub open spec fn decimal(n: nat) -> Seq<u8>
    decreases n,
{
    if n < 10 {
        seq![digit_byte(n)]
    } else {
        decimal(n / 10).push(digit_byte(n % 10))
    }
}

/// The `k`-th octet (0 is the most significant) of an address value.
pub open spec fn octet(bits: u32, k: int) -> nat {
    if k == 0 {
        (bits as nat / 16777216) % 256
    } else if k == 1 {
        (bits as nat / 65536) % 256
    } else if k == 2 {
        (bits as nat / 256) % 256
    } else {
        bits as nat % 256
    }
}

/// The canonical decimal-dotted text of an address, as bytes ("192.0.2.1").
pub open spec fn dotted(bits: u32) -> Seq<u8> {
    decimal(octet(bits, 0)) + seq![46u8] + decimal(octet(bits, 1)) + seq![46u8]
        + decimal(octet(bits, 2)) + seq![46u8] + decimal(octet(bits, 3))
}

impl Ipv4 {
    /// The address `a.b.c.d`.
    pub fn new(a: u8, b: u8, c: u8, d: u8) -> (r: Ipv4)
        ensures
            r.bits as nat == a as nat * 16777216 + b as nat * 65536 + c as nat * 256 + d as nat,
            octet(r.bits, 0) == a as nat,
            octet(r.bits, 1) == b as nat,
            octet(r.bits, 2) == c as nat,
            octet(r.bits, 3) == d as nat,
    {
        let bits: u32 = (a as u32) * 16777216 + (b as u32) * 65536 + (c as u32) * 256 + (d as u32);
        Ipv4 { bits }
    }

    /// The four octets, most significant first.
    pub fn octets(&self) -> (r: [u8; 4])
        ensures
            r@.len() == 4,
            forall|k: int| 0 <= k < 4 ==> r@[k] as nat == octet(self.bits, k),
    {
        let a = (self.bits / 16777216) as u8;
        let b = ((self.bits / 65536) % 256) as u8;
        let c = ((self.bits / 256) % 256) as u8;
        let d = (self.bits % 256) as u8;
        [a, b, c, d]
    }

    /// The decimal-dotted text of the address, as ASCII bytes.
    pub fn dotted_bytes(&self) -> (r: Vec<u8>)
        ensures
            r@ == dotted(self.bits),
    {
        let o = self.octets();
        let mut out: Vec<u8> = Vec::new();
        push_decimal(&mut out, o[0]);
        out.push(46u8);
        push_decimal(&mut out, o[1]);
        out.push(46u8);
        push_decimal(&mut out, o[2]);
        out.push(46u8);
        push_decimal(&mut out, o[3]);
        proof {
            assert(o@[0] as nat == octet(self.bits, 0));
            assert(o@[1] as nat == octet(self.bits, 1));
            assert(o@[2] as nat == octet(self.bits, 2));
            assert(o@[3] as nat == octet(self.bits, 3));
        }
        out
    }
}

/// Appends the decimal rendering of `n` to `out`.
fn push_decimal(out: &mut Vec<u8>, n: u8)
    ensures
        final(out)@ == old(out)@ + decimal(n as nat),
{
    proof {
        reveal_with_fuel(decimal, 3);
    }
    if n >= 100 {
        out.push(48u8 + n / 100);
        out.push(48u8 + (n / 10) % 10);
        out.push(48u8 + n % 10);
        proof {
            assert((n as nat / 10) / 10 == n as nat / 100);
        }
    } else if n >= 10 {
        out.push(48u8 + n / 10);
        out.push(48u8 + n % 10);
    } else {
        out.push(48u8 + n);
    }
}

} // verus!
