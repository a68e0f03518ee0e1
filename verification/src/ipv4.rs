//! IPv4 addresses held as `u32` words, their dotted-decimal text, and the
//! machine's byte order.
use vstd::prelude::*;
use vstd::endian::{endianness, Endian};
use crate::text::{decimal, decimal_chars, push_all};

verus! {

/// The four octets of the address `a`, most significant first
/// (`Ipv4Addr::from(a).octets()`).
pub open spec fn octets(a: u32) -> Seq<u8> {
    seq![(a >> 24u32) as u8, ((a >> 16u32) & 0xffu32) as u8, ((a >> 8u32) & 0xffu32) as u8, (a & 0xffu32) as u8]
}

/// The dotted-decimal text of the address `a` (`Ipv4Addr::from(a).to_string()`).
pub open spec fn dotted(a: u32) -> Seq<char> {
    let o = octets(a);
    decimal(o[0] as nat) + seq!['.'] + decimal(o[1] as nat) + seq!['.'] + decimal(o[2] as nat)
        + seq!['.'] + decimal(o[3] as nat)
}

/// `x` with its four bytes in reverse order (`u32::swap_bytes`).
pub open spec fn swap_bytes32(x: u32) -> u32 {
    ((x & 0xffu32) << 24u32) | (((x >> 8u32) & 0xffu32) << 16u32) | (((x >> 16u32) & 0xffu32) << 8u32)
        | (x >> 24u32)
}

/// A big-endian word in the byte order of the machine (`u32::from_be`).
pub open spec fn from_big_endian(x: u32) -> u32 {
    if endianness() is Little {
        swap_bytes32(x)
    } else {
        x
    }
}

/// `u32::from_be`: a no-op on a big-endian machine, a byte swap on a
/// little-endian one.
#[verifier::external_body]
fn u32_from_be(x: u32) -> (r: u32)
    ensures
        endianness() is Big ==> r == x,
        endianness() is Little ==> r == swap_bytes32(x),
{
    u32::from_be(x)
}

/// The big-endian word `x` in the machine's byte order.
pub fn host_order(x: u32) -> (r: u32)
    ensures
        r == from_big_endian(x),
{
    u32_from_be(x)
}

/// The dotted-decimal text of the address `a`.
pub fn dotted_chars(a: u32) -> (r: Vec<char>)
    ensures
        r@ == dotted(a),
{
    let o0 = (a >> 24u32) as u8;
    let o1 = ((a >> 16u32) & 0xffu32) as u8;
    let o2 = ((a >> 8u32) & 0xffu32) as u8;
    let o3 = (a & 0xffu32) as u8;
    let mut r = decimal_chars(o0 as u64);
    r.push('.');
    let d1 = decimal_chars(o1 as u64);
    push_all(&mut r, &d1);
    r.push('.');
    let d2 = decimal_chars(o2 as u64);
    push_all(&mut r, &d2);
    r.push('.');
    let d3 = decimal_chars(o3 as u64);
    push_all(&mut r, &d3);
    assert(r@ =~= dotted(a));
    r
}

} // verus!
