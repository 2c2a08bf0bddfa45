//! Endpoints and their textual wire form. An endpoint is an IPv4 address
//! and a UDP port; on the wire it travels as the ASCII text
//! `A.B.C.D:PORT` in canonical decimal. `spec_encode` is that rendering;
//! `parse_endpoint` accepts exactly the canonical renderings, so encoding
//! on one side and parsing on the other round-trips every endpoint.

use vstd::prelude::*;
use vstd::assert_by_contradiction;
use crate::digits::{
    is_digit, dec_digits, digit_run_end,
    lemma_dec_digits_wf, lemma_dec_digits_injective,
    lemma_digit_run_boundary,
    push_num, scan_num,
};

verus! {

/// ASCII code of `.`, the octet separator.
pub const DOT_CH: u8 = 46;

/// ASCII code of `:`, the address/port separator.
pub const COLON_CH: u8 = 58;

/// An (IPv4 address, port) pair identifying a UDP source or destination.
/// Two endpoints are equal iff all fields match exactly.
#[derive(Clone, Copy, PartialEq, Eq, Structural, Debug)]
pub struct Endpoint {
    pub a: u8,
    pub b: u8,
    pub c: u8,
    pub d: u8,
    pub port: u16,
}

/// The canonical textual rendering `A.B.C.D:PORT` of an endpoint.
pub open spec fn spec_encode(e: Endpoint) -> Seq<u8> {
    dec_digits(e.a as nat) + seq![DOT_CH] + dec_digits(e.b as nat) + seq![DOT_CH]
        + dec_digits(e.c as nat) + seq![DOT_CH] + dec_digits(e.d as nat)
        + seq![COLON_CH] + dec_digits(e.port as nat)
}

/// The endpoint whose canonical rendering is `s`, if there is one.
pub open spec fn spec_parse_endpoint(s: Seq<u8>) -> Option<Endpoint> {
    if exists|e: Endpoint| s == spec_encode(e) {
        Some(choose|e: Endpoint| s == spec_encode(e))
    } else {
        None
    }
}

/// Anatomy of a canonical rendering: the four digit runs end exactly at
/// the separators, and the final run reaches the end of the text.
pub proof fn lemma_encode_shape(s: Seq<u8>, e: Endpoint)
    requires
        s == spec_encode(e),
    ensures
        ({
            let p1 = digit_run_end(s, 0);
            let p2 = digit_run_end(s, p1 + 1);
            let p3 = digit_run_end(s, p2 + 1);
            let p4 = digit_run_end(s, p3 + 1);
            &&& 0 < p1 < p2 < p3 < p4 < s.len()
            &&& s.subrange(0, p1) == dec_digits(e.a as nat)
            &&& s[p1] == DOT_CH
            &&& s.subrange(p1 + 1, p2) == dec_digits(e.b as nat)
            &&& s[p2] == DOT_CH
            &&& s.subrange(p2 + 1, p3) == dec_digits(e.c as nat)
            &&& s[p3] == DOT_CH
            &&& s.subrange(p3 + 1, p4) == dec_digits(e.d as nat)
            &&& s[p4] == COLON_CH
            &&& digit_run_end(s, p4 + 1) == s.len()
            &&& s.subrange(p4 + 1, s.len() as int) == dec_digits(e.port as nat)
        }),
{
    let pa = dec_digits(e.a as nat);
    let pb = dec_digits(e.b as nat);
    let pc = dec_digits(e.c as nat);
    let pd = dec_digits(e.d as nat);
    let pp = dec_digits(e.port as nat);
    lemma_dec_digits_wf(e.a as nat);
    lemma_dec_digits_wf(e.b as nat);
    lemma_dec_digits_wf(e.c as nat);
    lemma_dec_digits_wf(e.d as nat);
    lemma_dec_digits_wf(e.port as nat);
    let q1 = pa.len() as int;
    let q2 = q1 + 1 + pb.len();
    let q3 = q2 + 1 + pc.len();
    let q4 = q3 + 1 + pd.len();
    let ql = q4 + 1 + pp.len();
    assert(s.len() == ql);
    assert(s.subrange(0, q1) =~= pa);
    assert(s[q1] == DOT_CH);
    assert(s.subrange(q1 + 1, q2) =~= pb);
    assert(s[q2] == DOT_CH);
    assert(s.subrange(q2 + 1, q3) =~= pc);
    assert(s[q3] == DOT_CH);
    assert(s.subrange(q3 + 1, q4) =~= pd);
    assert(s[q4] == COLON_CH);
    assert(s.subrange(q4 + 1, ql) =~= pp);
    assert(!is_digit(DOT_CH));
    assert(!is_digit(COLON_CH));
    assert forall|k: int| 0 <= k < q1 implies is_digit(#[trigger] s[k]) by {
        assert(s[k] == pa[k]);
    }
    lemma_digit_run_boundary(s, 0, q1);
    assert forall|k: int| q1 + 1 <= k < q2 implies is_digit(#[trigger] s[k]) by {
        assert(s[k] == pb[k - (q1 + 1)]);
    }
    lemma_digit_run_boundary(s, q1 + 1, q2);
    assert forall|k: int| q2 + 1 <= k < q3 implies is_digit(#[trigger] s[k]) by {
        assert(s[k] == pc[k - (q2 + 1)]);
    }
    lemma_digit_run_boundary(s, q2 + 1, q3);
    assert forall|k: int| q3 + 1 <= k < q4 implies is_digit(#[trigger] s[k]) by {
        assert(s[k] == pd[k - (q3 + 1)]);
    }
    lemma_digit_run_boundary(s, q3 + 1, q4);
    assert forall|k: int| q4 + 1 <= k < ql implies is_digit(#[trigger] s[k]) by {
        assert(s[k] == pp[k - (q4 + 1)]);
    }
    lemma_digit_run_boundary(s, q4 + 1, ql);
}

/// Converse of the shape lemma: canonical digit runs in the right places,
/// separated the right way, make the text a canonical rendering.
pub proof fn lemma_encode_build(s: Seq<u8>, e: Endpoint, p1: int, p2: int, p3: int, p4: int)
    requires
        0 < p1 < p2 < p3 < p4 < s.len(),
        s.subrange(0, p1) == dec_digits(e.a as nat),
        s[p1] == DOT_CH,
        s.subrange(p1 + 1, p2) == dec_digits(e.b as nat),
        s[p2] == DOT_CH,
        s.subrange(p2 + 1, p3) == dec_digits(e.c as nat),
        s[p3] == DOT_CH,
        s.subrange(p3 + 1, p4) == dec_digits(e.d as nat),
        s[p4] == COLON_CH,
        s.subrange(p4 + 1, s.len() as int) == dec_digits(e.port as nat),
    ensures
        s == spec_encode(e),
{
    let pa = dec_digits(e.a as nat);
    let pb = dec_digits(e.b as nat);
    let pc = dec_digits(e.c as nat);
    let pd = dec_digits(e.d as nat);
    let pp = dec_digits(e.port as nat);
    assert(pa.len() == p1);
    assert(pb.len() == p2 - (p1 + 1));
    assert(pc.len() == p3 - (p2 + 1));
    assert(pd.len() == p4 - (p3 + 1));
    assert(pp.len() == s.len() - (p4 + 1));
    assert forall|i: int| 0 <= i < s.len() implies s[i] == #[trigger] spec_encode(e)[i] by {
        if i < p1 {
            assert(s[i] == s.subrange(0, p1)[i]);
        } else if i == p1 {
        } else if i < p2 {
            assert(s[i] == s.subrange(p1 + 1, p2)[i - (p1 + 1)]);
        } else if i == p2 {
        } else if i < p3 {
            assert(s[i] == s.subrange(p2 + 1, p3)[i - (p2 + 1)]);
        } else if i == p3 {
        } else if i < p4 {
            assert(s[i] == s.subrange(p3 + 1, p4)[i - (p3 + 1)]);
        } else if i == p4 {
        } else {
            assert(s[i] == s.subrange(p4 + 1, s.len() as int)[i - (p4 + 1)]);
        }
    }
    assert(s =~= spec_encode(e));
}

/// Two endpoints with the same rendering are the same endpoint.
pub proof fn lemma_encode_injective(e1: Endpoint, e2: Endpoint)
    requires
        spec_encode(e1) == spec_encode(e2),
    ensures
        e1 == e2,
{
    let s = spec_encode(e1);
    lemma_encode_shape(s, e1);
    lemma_encode_shape(s, e2);
    lemma_dec_digits_injective(e1.a as nat, e2.a as nat);
    lemma_dec_digits_injective(e1.b as nat, e2.b as nat);
    lemma_dec_digits_injective(e1.c as nat, e2.c as nat);
    lemma_dec_digits_injective(e1.d as nat, e2.d as nat);
    lemma_dec_digits_injective(e1.port as nat, e2.port as nat);
}

/// Parsing inverts encoding: the rendering of `e` parses back to `e`.
pub proof fn lemma_parse_of_encode(e: Endpoint)
    ensures
        spec_parse_endpoint(spec_encode(e)) == Some(e),
{
    let s = spec_encode(e);
    assert(exists|x: Endpoint| s == spec_encode(x));
    let w = choose|x: Endpoint| s == spec_encode(x);
    lemma_encode_injective(w, e);
}

/// Renders an endpoint as the wire text `A.B.C.D:PORT`.
pub fn encode_endpoint(e: &Endpoint) -> (r: Vec<u8>)
    ensures
        r@ == spec_encode(*e),
{
    let mut out: Vec<u8> = Vec::new();
    push_num(&mut out, e.a as u16);
    out.push(DOT_CH);
    push_num(&mut out, e.b as u16);
    out.push(DOT_CH);
    push_num(&mut out, e.c as u16);
    out.push(DOT_CH);
    push_num(&mut out, e.d as u16);
    out.push(COLON_CH);
    push_num(&mut out, e.port);
    proof {
        assert(out@ =~= spec_encode(*e));
    }
    out
}

/// Parses wire text as an endpoint. Returns `Some` exactly on the
/// canonical renderings: four dot-separated octets, a colon and a port,
/// each in canonical decimal, with nothing before or after.
pub fn parse_endpoint(buf: &Vec<u8>) -> (r: Option<Endpoint>)
    ensures
        r == spec_parse_endpoint(buf@),
{
    let ghost s = buf@;
    let n = buf.len();
    let r1 = scan_num(buf, 0, 255);
    let (va, p1) = match r1 {
        None => {
            proof {
                assert_by_contradiction!(!exists|e: Endpoint| s == spec_encode(e), {
                    let e = choose|e: Endpoint| s == spec_encode(e);
                    lemma_encode_shape(s, e);
                });
            }
            return None;
        },
        Some(p) => p,
    };
    if p1 >= n || buf[p1] != DOT_CH {
        proof {
            assert_by_contradiction!(!exists|e: Endpoint| s == spec_encode(e), {
                let e = choose|e: Endpoint| s == spec_encode(e);
                lemma_encode_shape(s, e);
            });
        }
        return None;
    }
    let r2 = scan_num(buf, p1 + 1, 255);
    let (vb, p2) = match r2 {
        None => {
            proof {
                assert_by_contradiction!(!exists|e: Endpoint| s == spec_encode(e), {
                    let e = choose|e: Endpoint| s == spec_encode(e);
                    lemma_encode_shape(s, e);
                });
            }
            return None;
        },
        Some(p) => p,
    };
    if p2 >= n || buf[p2] != DOT_CH {
        proof {
            assert_by_contradiction!(!exists|e: Endpoint| s == spec_encode(e), {
                let e = choose|e: Endpoint| s == spec_encode(e);
                lemma_encode_shape(s, e);
            });
        }
        return None;
    }
    let r3 = scan_num(buf, p2 + 1, 255);
    let (vc, p3) = match r3 {
        None => {
            proof {
                assert_by_contradiction!(!exists|e: Endpoint| s == spec_encode(e), {
                    let e = choose|e: Endpoint| s == spec_encode(e);
                    lemma_encode_shape(s, e);
                });
            }
            return None;
        },
        Some(p) => p,
    };
    if p3 >= n || buf[p3] != DOT_CH {
        proof {
            assert_by_contradiction!(!exists|e: Endpoint| s == spec_encode(e), {
                let e = choose|e: Endpoint| s == spec_encode(e);
                lemma_encode_shape(s, e);
            });
        }
        return None;
    }
    let r4 = scan_num(buf, p3 + 1, 255);
    let (vd, p4) = match r4 {
        None => {
            proof {
                assert_by_contradiction!(!exists|e: Endpoint| s == spec_encode(e), {
                    let e = choose|e: Endpoint| s == spec_encode(e);
                    lemma_encode_shape(s, e);
                });
            }
            return None;
        },
        Some(p) => p,
    };
    if p4 >= n || buf[p4] != COLON_CH {
        proof {
            assert_by_contradiction!(!exists|e: Endpoint| s == spec_encode(e), {
                let e = choose|e: Endpoint| s == spec_encode(e);
                lemma_encode_shape(s, e);
            });
        }
        return None;
    }
    let r5 = scan_num(buf, p4 + 1, 65535);
    let (vp, p5) = match r5 {
        None => {
            proof {
                assert_by_contradiction!(!exists|e: Endpoint| s == spec_encode(e), {
                    let e = choose|e: Endpoint| s == spec_encode(e);
                    lemma_encode_shape(s, e);
                });
            }
            return None;
        },
        Some(p) => p,
    };
    if p5 != n {
        proof {
            assert_by_contradiction!(!exists|e: Endpoint| s == spec_encode(e), {
                let e = choose|e: Endpoint| s == spec_encode(e);
                lemma_encode_shape(s, e);
            });
        }
        return None;
    }
    let ep = Endpoint {
        a: va as u8,
        b: vb as u8,
        c: vc as u8,
        d: vd as u8,
        port: vp as u16,
    };
    proof {
        lemma_encode_build(s, ep, p1 as int, p2 as int, p3 as int, p4 as int);
        let w = choose|e: Endpoint| s == spec_encode(e);
        lemma_encode_injective(w, ep);
    }
    Some(ep)
}

/// Length of `s` once trailing NUL bytes are dropped.
pub open spec fn trimmed_len(s: Seq<u8>) -> int
    decreases s.len(),
{
    if s.len() == 0 {
        0
    } else if s.last() == 0 {
        trimmed_len(s.drop_last())
    } else {
        s.len() as int
    }
}

/// `s` without its trailing NUL bytes, as left behind in a reused
/// fixed-size receive buffer.
pub open spec fn trim_zeros(s: Seq<u8>) -> Seq<u8> {
    s.take(trimmed_len(s))
}

pub proof fn lemma_trimmed_len_bounds(s: Seq<u8>)
    ensures
        0 <= trimmed_len(s) <= s.len(),
    decreases s.len(),
{
    if s.len() > 0 && s.last() == 0 {
        lemma_trimmed_len_bounds(s.drop_last());
    }
}

/// Trailing NUL padding never changes what trimming leaves behind.
pub proof fn lemma_trim_zeros_padded(s: Seq<u8>, tail: Seq<u8>)
    requires
        forall|i: int| 0 <= i < tail.len() ==> #[trigger] tail[i] == 0,
    ensures
        trim_zeros(s + tail) == trim_zeros(s),
    decreases tail.len(),
{
    lemma_trimmed_len_bounds(s);
    if tail.len() == 0 {
        assert(s + tail =~= s);
    } else {
        let shorter = tail.drop_last();
        assert forall|i: int| 0 <= i < shorter.len() implies #[trigger] shorter[i] == 0 by {
            assert(shorter[i] == tail[i]);
        }
        lemma_trim_zeros_padded(s, shorter);
        let w = s + tail;
        assert(w.last() == tail.last());
        assert(w.drop_last() =~= s + shorter);
        assert(trimmed_len(w) == trimmed_len(s + shorter));
        lemma_trimmed_len_bounds(s + shorter);
        assert(w.take(trimmed_len(w)) =~= (s + shorter).take(trimmed_len(s + shorter)));
    }
}

/// A canonical rendering ends in a digit, so trimming leaves it whole.
pub proof fn lemma_trim_zeros_of_encode(e: Endpoint)
    ensures
        trim_zeros(spec_encode(e)) == spec_encode(e),
{
    let s = spec_encode(e);
    lemma_dec_digits_wf(e.port as nat);
    let pp = dec_digits(e.port as nat);
    assert(s.len() >= 1);
    assert(s.last() == pp.last());
    assert(is_digit(pp.last()));
    assert(trimmed_len(s) == s.len());
    assert(s.take(s.len() as int) =~= s);
}

/// What the client makes of a datagram held in the first `len` bytes of a
/// receive buffer: drop the unfilled rest, trim NUL padding, parse.
pub open spec fn spec_decode_peer(s: Seq<u8>, len: int) -> Option<Endpoint> {
    spec_parse_endpoint(trim_zeros(s.take(len)))
}

/// Copies the first `len` bytes of `buf` and drops trailing NUL bytes.
pub fn trim_received(buf: &Vec<u8>, len: usize) -> (r: Vec<u8>)
    requires
        len <= buf@.len(),
    ensures
        r@ == trim_zeros(buf@.take(len as int)),
{
    let ghost s = buf@.take(len as int);
    let mut k = len;
    proof {
        assert(s.take(len as int) =~= s);
    }
    while k > 0 && buf[k - 1] == 0
        invariant
            k <= len <= buf@.len(),
            s == buf@.take(len as int),
            trimmed_len(s) == trimmed_len(s.take(k as int)),
        decreases k,
    {
        proof {
            let cur = s.take(k as int);
            assert(cur.last() == s[k - 1] == buf@[k - 1]);
            assert(cur.drop_last() =~= s.take(k as int - 1));
        }
        k = k - 1;
    }
    proof {
        let cur = s.take(k as int);
        if k > 0 {
            assert(cur.last() == buf@[k - 1]);
            assert(trimmed_len(cur) == k as int);
        }
        lemma_trimmed_len_bounds(s);
        assert(trimmed_len(s) == k as int);
    }
    let mut out: Vec<u8> = Vec::new();
    let mut i: usize = 0;
    while i < k
        invariant
            i <= k <= buf@.len(),
            out@ == buf@.take(i as int),
        decreases k - i,
    {
        out.push(buf[i]);
        proof {
            assert(out@ =~= buf@.take(i as int + 1));
        }
        i = i + 1;
    }
    proof {
        assert(out@ =~= trim_zeros(s));
    }
    out
}

/// Decodes the peer endpoint from the first `len` bytes of a receive
/// buffer, as received during the handshake.
pub fn decode_peer(buf: &Vec<u8>, len: usize) -> (r: Option<Endpoint>)
    requires
        len <= buf@.len(),
    ensures
        r == spec_decode_peer(buf@, len as int),
{
    let trimmed = trim_received(buf, len);
    parse_endpoint(&trimmed)
}

/// A datagram carrying the rendering of `e`, even NUL-padded to the right
/// by a reused buffer, decodes to exactly `e`.
pub proof fn lemma_decode_peer_of_encode(e: Endpoint, s: Seq<u8>, len: int)
    requires
        0 <= len <= s.len(),
        spec_encode(e).len() <= len,
        s.take(len).take(spec_encode(e).len() as int) == spec_encode(e),
        forall|i: int| spec_encode(e).len() <= i < len ==> #[trigger] s[i] == 0,
    ensures
        spec_decode_peer(s, len) == Some(e),
{
    let enc = spec_encode(e);
    let w = s.take(len);
    let tail = w.skip(enc.len() as int);
    assert forall|i: int| 0 <= i < tail.len() implies #[trigger] tail[i] == 0 by {
        assert(tail[i] == s[enc.len() + i]);
    }
    assert(w =~= enc + tail);
    lemma_trim_zeros_padded(enc, tail);
    lemma_trim_zeros_of_encode(e);
    assert(trim_zeros(enc + tail) =~= trim_zeros(enc));
    lemma_parse_of_encode(e);
}

} // verus!
