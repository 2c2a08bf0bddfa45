//! The rendezvous server's pairing round. The server watches the source
//! endpoints of incoming registrations: the first one seen opens a round,
//! repeats of it are discarded, and the first genuinely different one
//! closes the round as a pair. No state survives a completed round.

use vstd::prelude::*;
use crate::endpoint::{Endpoint, spec_encode, encode_endpoint};

verus! {

/// Pairing state within one rendezvous round.
#[derive(Clone, Copy, PartialEq, Eq, Structural, Debug)]
pub enum PairingState {
    /// No registration seen yet in this round.
    AwaitingFirst,
    /// One endpoint registered; waiting for a distinct second one.
    AwaitingSecond { first: Endpoint },
}

pub open spec fn spec_pairing_init() -> PairingState {
    PairingState::AwaitingFirst
}

/// One registration datagram arrives from `src`: the next state, and the
/// pair formed if this registration completed the round.
pub open spec fn spec_pairing_step(st: PairingState, src: Endpoint) -> (
    PairingState,
    Option<(Endpoint, Endpoint)>,
) {
    match st {
        PairingState::AwaitingFirst => (PairingState::AwaitingSecond { first: src }, None),
        PairingState::AwaitingSecond { first } => if src == first {
            (PairingState::AwaitingSecond { first }, None)
        } else {
            (PairingState::AwaitingFirst, Some((first, src)))
        },
    }
}

/// Folds a whole sequence of registrations, collecting the pairs formed.
pub open spec fn spec_pairing_run(st: PairingState, srcs: Seq<Endpoint>) -> (
    PairingState,
    Seq<(Endpoint, Endpoint)>,
)
    decreases srcs.len(),
{
    if srcs.len() == 0 {
        (st, Seq::empty())
    } else {
        let stepped = spec_pairing_step(st, srcs[0]);
        let rest = spec_pairing_run(stepped.0, srcs.skip(1));
        (
            rest.0,
            match stepped.1 {
                Some(pair) => seq![pair] + rest.1,
                None => rest.1,
            },
        )
    }
}

/// The state a fresh pairing round starts in.
pub fn pairing_init() -> (r: PairingState)
    ensures
        r == spec_pairing_init(),
{
    PairingState::AwaitingFirst
}

/// Feeds one registration's source endpoint to the pairing round.
pub fn pairing_step(st: PairingState, src: Endpoint) -> (r: (
    PairingState,
    Option<(Endpoint, Endpoint)>,
))
    ensures
        r == spec_pairing_step(st, src),
{
    match st {
        PairingState::AwaitingFirst => (PairingState::AwaitingSecond { first: src }, None),
        PairingState::AwaitingSecond { first } => if src == first {
            (PairingState::AwaitingSecond { first }, None)
        } else {
            (PairingState::AwaitingFirst, Some((first, src)))
        },
    }
}

/// The two payloads sent when a pair forms: each member receives the
/// other's rendered endpoint. `r.0` goes to `first`, `r.1` to `second`.
pub fn exchange_payloads(first: Endpoint, second: Endpoint) -> (r: (Vec<u8>, Vec<u8>))
    ensures
        r.0@ == spec_encode(second),
        r.1@ == spec_encode(first),
{
    (encode_endpoint(&second), encode_endpoint(&first))
}

/// A pairing step never pairs an endpoint with itself.
pub proof fn lemma_never_self_paired(st: PairingState, src: Endpoint)
    ensures
        spec_pairing_step(st, src).1 matches Some(pair) ==> pair.0 != pair.1,
{
}

/// However the registrations run, no pair ever relates an endpoint to
/// itself.
pub proof fn lemma_run_never_self_paired(st: PairingState, srcs: Seq<Endpoint>)
    ensures
        forall|i: int| 0 <= i < spec_pairing_run(st, srcs).1.len()
            ==> (#[trigger] spec_pairing_run(st, srcs).1[i]).0 != spec_pairing_run(st, srcs).1[i].1,
    decreases srcs.len(),
{
    if srcs.len() == 0 {
    } else {
        let stepped = spec_pairing_step(st, srcs[0]);
        lemma_run_never_self_paired(stepped.0, srcs.skip(1));
        lemma_never_self_paired(st, srcs[0]);
        let rest = spec_pairing_run(stepped.0, srcs.skip(1)).1;
        match stepped.1 {
            Some(pair) => {
                assert forall|i: int| 0 <= i < (seq![pair] + rest).len() implies (#[trigger] (seq![
                    pair,
                ] + rest)[i]).0 != (seq![pair] + rest)[i].1 by {
                    if i > 0 {
                        assert((seq![pair] + rest)[i] == rest[i - 1]);
                    }
                }
            },
            None => {},
        }
    }
}

/// Repeated registrations from the already-seen first endpoint are
/// discarded without effect.
pub proof fn lemma_duplicates_ignored(first: Endpoint, j: nat, t: Seq<Endpoint>)
    ensures
        spec_pairing_run(
            PairingState::AwaitingSecond { first },
            Seq::new(j, |i: int| first) + t,
        ) == spec_pairing_run(PairingState::AwaitingSecond { first }, t),
    decreases j,
{
    if j == 0 {
        assert(Seq::new(0, |i: int| first) + t =~= t);
    } else {
        let w = Seq::new(j, |i: int| first) + t;
        assert(w[0] == first);
        assert(w.skip(1) =~= Seq::new((j - 1) as nat, |i: int| first) + t);
        lemma_duplicates_ignored(first, (j - 1) as nat, t);
    }
}

/// Pairing correctness: however often the first endpoint re-registers
/// before a distinct one arrives, the round pairs exactly those two, in
/// order of arrival, and ends back in the fresh state.
pub proof fn lemma_pairing_correctness(e1: Endpoint, e2: Endpoint, m: nat)
    requires
        e1 != e2,
        m >= 1,
    ensures
        spec_pairing_run(spec_pairing_init(), Seq::new(m, |i: int| e1).push(e2)) == (
            PairingState::AwaitingFirst,
            seq![(e1, e2)],
        ),
{
    let regs = Seq::new(m, |i: int| e1).push(e2);
    assert(regs[0] == e1);
    assert(regs.skip(1) =~= Seq::new((m - 1) as nat, |i: int| e1) + seq![e2]);
    lemma_duplicates_ignored(e1, (m - 1) as nat, seq![e2]);
    let one = seq![e2];
    assert(one.skip(1) =~= Seq::<Endpoint>::empty());
    let tail = spec_pairing_run(PairingState::AwaitingFirst, Seq::<Endpoint>::empty());
    assert(tail.1 =~= Seq::<(Endpoint, Endpoint)>::empty());
    assert(seq![(e1, e2)] + tail.1 =~= seq![(e1, e2)]);
}

/// Running `x ++ y` is running `x`, then running `y` from where `x` left
/// off; the pairs formed are those of `x` followed by those of `y`.
pub proof fn lemma_pairing_run_append(st: PairingState, x: Seq<Endpoint>, y: Seq<Endpoint>)
    ensures
        spec_pairing_run(st, x + y).0 == spec_pairing_run(spec_pairing_run(st, x).0, y).0,
        spec_pairing_run(st, x + y).1 == spec_pairing_run(st, x).1 + spec_pairing_run(
            spec_pairing_run(st, x).0,
            y,
        ).1,
    decreases x.len(),
{
    if x.len() == 0 {
        assert(x + y =~= y);
        assert(spec_pairing_run(st, x).1 =~= Seq::<(Endpoint, Endpoint)>::empty());
        assert(Seq::<(Endpoint, Endpoint)>::empty() + spec_pairing_run(st, y).1 =~= spec_pairing_run(
            st,
            y,
        ).1);
    } else {
        let stepped = spec_pairing_step(st, x[0]);
        assert((x + y)[0] == x[0]);
        assert((x + y).skip(1) =~= x.skip(1) + y);
        lemma_pairing_run_append(stepped.0, x.skip(1), y);
        let rx = spec_pairing_run(stepped.0, x.skip(1));
        let ry = spec_pairing_run(rx.0, y);
        match stepped.1 {
            Some(pair) => {
                assert((seq![pair] + rx.1) + ry.1 =~= seq![pair] + (rx.1 + ry.1));
            },
            None => {},
        }
    }
}

/// Pairing independence: a completed round leaves no state behind, so
/// whatever registrations follow are handled exactly as by a fresh
/// server, and no later endpoint is ever paired with a stale one.
pub proof fn lemma_pairing_independence(e1: Endpoint, e2: Endpoint, later: Seq<Endpoint>)
    requires
        e1 != e2,
    ensures
        spec_pairing_run(spec_pairing_init(), seq![e1, e1, e2] + later).0 == spec_pairing_run(
            spec_pairing_init(),
            later,
        ).0,
        spec_pairing_run(spec_pairing_init(), seq![e1, e1, e2] + later).1 == seq![(e1, e2)]
            + spec_pairing_run(spec_pairing_init(), later).1,
{
    assert(seq![e1, e1, e2] =~= Seq::new(2, |i: int| e1).push(e2));
    lemma_pairing_correctness(e1, e2, 2);
    lemma_pairing_run_append(spec_pairing_init(), seq![e1, e1, e2], later);
}

} // verus!
