//! The scanner as a mathematical state machine.
//!
//! Everything here is specification: a state, the transition that one byte
//! causes, and the result of feeding a whole sequence of bytes. The executable
//! scanner is stated against these functions.

use vstd::prelude::*;
use crate::signature::{footer, header};

verus! {

/// What the scanner is currently waiting for.
pub enum Phase {
    /// No header has been completed; the last `matched` bytes are the first
    /// `matched` bytes of the header pattern (`matched` is in `0..8`).
    SeekingHeader { matched: nat },
    /// The header is complete; the last `matched` bytes are the first
    /// `matched` bytes of the footer pattern (`matched` is in `0..8`).
    SeekingFooter { matched: nat },
    /// Header and footer pattern are complete, and `captured` of the four
    /// checksum bytes have been taken (`captured` is in `0..4`).
    CapturingChecksum { captured: nat },
}

/// The state of a scanner: its phase, the bytes of the current candidate and
/// the number of payloads completed so far.
pub struct ScanState {
    pub phase: Phase,
    pub buffer: Seq<u8>,
    pub count: nat,
}

/// The state that waits for the first header byte, after `count` payloads.
pub open spec fn idle(count: nat) -> ScanState {
    ScanState { phase: Phase::SeekingHeader { matched: 0 }, buffer: Seq::empty(), count }
}

/// The state of a new scanner.
pub open spec fn initial() -> ScanState {
    idle(0)
}

/// Header progress: how many header bytes the candidate has matched.
pub open spec fn header_cursor(s: ScanState) -> nat {
    match s.phase {
        Phase::SeekingHeader { matched } => matched,
        _ => 8,
    }
}

/// Footer progress: `0..8` counts matched footer bytes, `8..12` counts the
/// checksum bytes on top of the complete footer pattern.
pub open spec fn footer_cursor(s: ScanState) -> nat {
    match s.phase {
        Phase::SeekingHeader { .. } => 0,
        Phase::SeekingFooter { matched } => matched,
        Phase::CapturingChecksum { captured } => 8 + captured,
    }
}

/// The buffer agrees with the phase: while the header is sought it holds the
/// matched header bytes and nothing else; afterwards it starts with the whole
/// header and ends with what the phase says has been matched.
pub open spec fn well_formed(s: ScanState) -> bool {
    let n = s.buffer.len() as int;
    match s.phase {
        Phase::SeekingHeader { matched } => {
            &&& matched < 8
            &&& s.buffer == header().take(matched as int)
        },
        Phase::SeekingFooter { matched } => {
            &&& matched < 8
            &&& n >= 8 + matched
            &&& s.buffer.take(8) == header()
            &&& s.buffer.skip(n - matched) == footer().take(matched as int)
        },
        Phase::CapturingChecksum { captured } => {
            &&& captured < 4
            &&& n >= 16 + captured
            &&& s.buffer.take(8) == header()
            &&& s.buffer.subrange(n - captured - 8, n - captured) == footer()
        },
    }
}

/// Whether the next byte, whatever it is, completes the candidate.
pub open spec fn completes(s: ScanState) -> bool {
    s.phase == (Phase::CapturingChecksum { captured: 3 })
}

/// The state after `byte` has been consumed in state `s`.
pub open spec fn step(s: ScanState, byte: u8) -> ScanState {
    match s.phase {
        Phase::SeekingHeader { matched } => {
            if matched < 8 && byte == header()[matched as int] {
                ScanState {
                    phase: if matched + 1 == 8 {
                        Phase::SeekingFooter { matched: 0 }
                    } else {
                        Phase::SeekingHeader { matched: matched + 1 }
                    },
                    buffer: s.buffer.push(byte),
                    count: s.count,
                }
            } else {
                idle(s.count)
            }
        },
        Phase::SeekingFooter { matched } => {
            ScanState {
                phase: if matched < 8 && byte == footer()[matched as int] {
                    if matched + 1 == 8 {
                        Phase::CapturingChecksum { captured: 0 }
                    } else {
                        Phase::SeekingFooter { matched: matched + 1 }
                    }
                } else {
                    Phase::SeekingFooter { matched: 0 }
                },
                buffer: s.buffer.push(byte),
                count: s.count,
            }
        },
        Phase::CapturingChecksum { captured } => {
            if captured == 3 {
                idle(s.count + 1)
            } else {
                ScanState {
                    phase: Phase::CapturingChecksum { captured: captured + 1 },
                    buffer: s.buffer.push(byte),
                    count: s.count,
                }
            }
        },
    }
}

/// The payload that consuming `byte` in state `s` completes, if any.
pub open spec fn emits(s: ScanState, byte: u8) -> Option<Seq<u8>> {
    if completes(s) {
        Some(s.buffer.push(byte))
    } else {
        None
    }
}

/// The state after all of `bytes` have been consumed, in order, from `s`.
pub open spec fn feed(s: ScanState, bytes: Seq<u8>) -> ScanState
    decreases bytes.len(),
{
    if bytes.len() == 0 {
        s
    } else {
        step(feed(s, bytes.drop_last()), bytes.last())
    }
}

/// The payloads completed while `bytes` are consumed from `s`, in the order
/// of their completion.
pub open spec fn emitted(s: ScanState, bytes: Seq<u8>) -> Seq<Seq<u8>>
    decreases bytes.len(),
{
    if bytes.len() == 0 {
        Seq::empty()
    } else {
        let earlier = emitted(s, bytes.drop_last());
        match emits(feed(s, bytes.drop_last()), bytes.last()) {
            Some(payload) => earlier.push(payload),
            None => earlier,
        }
    }
}

/// The payloads that a new scanner finds in `bytes`.
pub open spec fn extracted(bytes: Seq<u8>) -> Seq<Seq<u8>> {
    emitted(initial(), bytes)
}

/// A step keeps a well-formed state well-formed.
pub proof fn lemma_step_well_formed(s: ScanState, byte: u8)
    requires
        well_formed(s),
    ensures
        well_formed(step(s, byte)),
{
    let t = step(s, byte);
    let n = s.buffer.len() as int;
    match s.phase {
        Phase::SeekingHeader { matched } => {
            if byte == header()[matched as int] {
                assert(s.buffer.push(byte) =~= header().take((matched + 1) as int));
                if matched + 1 == 8 {
                    assert(header().take(8) =~= header());
                    assert(t.buffer.take(8) =~= t.buffer);
                    assert(t.buffer.skip(8) =~= footer().take(0));
                }
            } else {
                assert(t.buffer =~= header().take(0));
            }
        },
        Phase::SeekingFooter { matched } => {
            assert(t.buffer.take(8) =~= s.buffer.take(8));
            if byte == footer()[matched as int] {
                assert(t.buffer.skip(n + 1 - (matched + 1)) =~= s.buffer.skip(n - matched).push(byte));
                assert(footer().take(matched as int).push(byte) =~= footer().take((matched + 1) as int));
                if matched + 1 == 8 {
                    assert(footer().take(8) =~= footer());
                    assert(t.buffer.subrange(n + 1 - 8, n + 1) =~= t.buffer.skip(n + 1 - 8));
                }
            } else {
                assert(t.buffer.skip(n + 1) =~= footer().take(0));
            }
        },
        Phase::CapturingChecksum { captured } => {
            if captured == 3 {
                assert(t.buffer =~= header().take(0));
            } else {
                assert(t.buffer.take(8) =~= s.buffer.take(8));
                assert(t.buffer.subrange(n + 1 - (captured + 1) - 8, n + 1 - (captured + 1))
                    =~= s.buffer.subrange(n - captured - 8, n - captured));
            }
        },
    }
}

/// Feeding one more byte: the state makes one more step, and the payload
/// that the byte completes, if any, comes last.
pub proof fn lemma_feed_push(s: ScanState, bytes: Seq<u8>, byte: u8)
    ensures
        feed(s, bytes.push(byte)) == step(feed(s, bytes), byte),
        emitted(s, bytes.push(byte)) == match emits(feed(s, bytes), byte) {
            Some(payload) => emitted(s, bytes).push(payload),
            None => emitted(s, bytes),
        },
{
    assert(bytes.push(byte).drop_last() =~= bytes);
}

/// Feeding `a + b` is feeding `a` and then `b`, and the payloads come in that
/// order.
pub proof fn lemma_feed_concat(s: ScanState, a: Seq<u8>, b: Seq<u8>)
    ensures
        feed(s, a + b) == feed(feed(s, a), b),
        emitted(s, a + b) == emitted(s, a) + emitted(feed(s, a), b),
    decreases b.len(),
{
    if b.len() == 0 {
        assert(a + b =~= a);
        assert(emitted(s, a) + emitted(feed(s, a), b) =~= emitted(s, a));
    } else {
        let front = b.drop_last();
        lemma_feed_concat(s, a, front);
        assert((a + b).drop_last() =~= a + front);
        assert((a + b).last() == b.last());
        let mid = feed(s, a);
        match emits(feed(mid, front), b.last()) {
            Some(payload) => {
                assert(emitted(s, a + b) =~= emitted(s, a) + emitted(mid, b));
            },
            None => {},
        }
    }
}

/// Feeding keeps a well-formed state well-formed.
pub proof fn lemma_feed_well_formed(s: ScanState, bytes: Seq<u8>)
    requires
        well_formed(s),
    ensures
        well_formed(feed(s, bytes)),
    decreases bytes.len(),
{
    if bytes.len() > 0 {
        lemma_feed_well_formed(s, bytes.drop_last());
        lemma_step_well_formed(feed(s, bytes.drop_last()), bytes.last());
    }
}

/// The count grows by one with every payload and never otherwise.
pub proof fn lemma_feed_count(s: ScanState, bytes: Seq<u8>)
    ensures
        feed(s, bytes).count == s.count + emitted(s, bytes).len(),
    decreases bytes.len(),
{
    if bytes.len() > 0 {
        lemma_feed_count(s, bytes.drop_last());
    }
}

/// What has been emitted after a part of the input stays as it is when the
/// rest is fed.
pub proof fn lemma_emitted_prefix(s: ScanState, bytes: Seq<u8>, n: int)
    requires
        0 <= n <= bytes.len(),
    ensures
        emitted(s, bytes.take(n)).len() <= emitted(s, bytes).len(),
        emitted(s, bytes.take(n)) == emitted(s, bytes).take(emitted(s, bytes.take(n)).len() as int),
{
    lemma_feed_concat(s, bytes.take(n), bytes.skip(n));
    assert(bytes.take(n) + bytes.skip(n) =~= bytes);
    let head = emitted(s, bytes.take(n));
    let tail = emitted(feed(s, bytes.take(n)), bytes.skip(n));
    assert((head + tail).take(head.len() as int) =~= head);
}

/// Every payload is delimited: it begins with the header pattern and ends
/// with the footer pattern and four more bytes.
pub open spec fn delimited(payload: Seq<u8>) -> bool {
    let n = payload.len() as int;
    &&& n >= 20
    &&& payload.take(8) == header()
    &&& payload.subrange(n - 12, n - 4) == footer()
}

/// A payload completed in a well-formed state is delimited.
pub proof fn lemma_emits_delimited(s: ScanState, byte: u8)
    requires
        well_formed(s),
    ensures
        emits(s, byte) matches Some(payload) ==> delimited(payload),
{
    if completes(s) {
        let payload = s.buffer.push(byte);
        let n = s.buffer.len() as int;
        assert(payload.take(8) =~= s.buffer.take(8));
        assert(payload.subrange(n + 1 - 12, n + 1 - 4) =~= s.buffer.subrange(n - 3 - 8, n - 3));
    }
}

/// All payloads found from a well-formed state are delimited.
pub proof fn lemma_emitted_delimited(s: ScanState, bytes: Seq<u8>)
    requires
        well_formed(s),
    ensures
        forall|i: int| 0 <= i < emitted(s, bytes).len() ==> delimited(#[trigger] emitted(s, bytes)[i]),
    decreases bytes.len(),
{
    if bytes.len() > 0 {
        let earlier = emitted(s, bytes.drop_last());
        lemma_emitted_delimited(s, bytes.drop_last());
        lemma_feed_well_formed(s, bytes.drop_last());
        lemma_emits_delimited(feed(s, bytes.drop_last()), bytes.last());
        assert forall|i: int| 0 <= i < emitted(s, bytes).len() implies delimited(
            #[trigger] emitted(s, bytes)[i],
        ) by {
            if i < earlier.len() {
                assert(emitted(s, bytes)[i] == earlier[i]);
            }
        }
    }
}

/// A payload takes at least twenty bytes of input, and the bytes of the
/// candidate that is being read come on top of that.
pub proof fn lemma_emitted_len(s: ScanState, bytes: Seq<u8>)
    requires
        well_formed(s),
    ensures
        20 * emitted(s, bytes).len() + feed(s, bytes).buffer.len() <= bytes.len() + s.buffer.len(),
    decreases bytes.len(),
{
    if bytes.len() > 0 {
        lemma_emitted_len(s, bytes.drop_last());
        lemma_feed_well_formed(s, bytes.drop_last());
    }
}

} // verus!
