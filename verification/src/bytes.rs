//! Byte-buffer helpers shared by the relay and the client's duplex
//! loops. Datagrams land in fixed-size, reused buffers, so code that
//! handles them must copy exactly the received prefix and nothing more.

use vstd::prelude::*;

verus! {

/// Copies the first `len` bytes of `buf`: the part of a receive buffer
/// that actually holds the datagram at hand.
pub fn copy_prefix(buf: &Vec<u8>, len: usize) -> (r: Vec<u8>)
    requires
        len <= buf@.len(),
    ensures
        r@ == buf@.take(len as int),
{
    let mut out: Vec<u8> = Vec::new();
    let mut i: usize = 0;
    while i < len
        invariant
            i <= len <= buf@.len(),
            out@ == buf@.take(i as int),
        decreases len - i,
    {
        out.push(buf[i]);
        proof {
            assert(out@ =~= buf@.take(i as int + 1));
        }
        i = i + 1;
    }
    out
}

} // verus!
