//! The two pattern matchers on whole sequences, and what the scanner does on
//! inputs that they describe.
//!
//! Both matchers go back to the start of their pattern on a mismatch and do
//! not look at the mismatching byte again.

use vstd::prelude::*;
use crate::model::{emitted, feed, idle, lemma_feed_count, Phase, ScanState};
use crate::signature::{footer, header};

verus! {

/// Header progress after one more byte. Progress 8 means that the header is
/// complete, and stays.
pub open spec fn header_next(progress: nat, byte: u8) -> nat {
    if progress >= 8 {
        8
    } else if byte == header()[progress as int] {
        progress + 1
    } else {
        0
    }
}

/// Footer progress after one more byte. Below 8 it counts matched bytes of
/// the footer pattern; from 8 on every byte counts, as a checksum byte.
/// Progress 12 means that the candidate is complete, and stays.
pub open spec fn footer_next(progress: nat, byte: u8) -> nat {
    if progress >= 12 {
        12
    } else if progress >= 8 {
        progress + 1
    } else if byte == footer()[progress as int] {
        progress + 1
    } else {
        0
    }
}

/// Header progress of a scanner that starts on `bytes` with nothing matched.
pub open spec fn header_progress(bytes: Seq<u8>) -> nat
    decreases bytes.len(),
{
    if bytes.len() == 0 {
        0
    } else {
        header_next(header_progress(bytes.drop_last()), bytes.last())
    }
}

/// Footer progress of a scanner that has just completed a header and then
/// reads `bytes`.
pub open spec fn footer_progress(bytes: Seq<u8>) -> nat
    decreases bytes.len(),
{
    if bytes.len() == 0 {
        0
    } else {
        footer_next(footer_progress(bytes.drop_last()), bytes.last())
    }
}

/// The phase of a scanner inside a candidate, by its footer progress.
pub open spec fn phase_at(progress: nat) -> Phase {
    if progress < 8 {
        Phase::SeekingFooter { matched: progress }
    } else {
        Phase::CapturingChecksum { captured: (progress - 8) as nat }
    }
}

/// Both progress functions stay within their ranges.
pub proof fn lemma_progress_bounds(bytes: Seq<u8>)
    ensures
        header_progress(bytes) <= 8,
        footer_progress(bytes) <= 12,
    decreases bytes.len(),
{
    if bytes.len() > 0 {
        lemma_progress_bounds(bytes.drop_last());
    }
}

/// The first `n` bytes of the header pattern give header progress `n`.
pub proof fn lemma_header_matches_itself(n: int)
    requires
        0 <= n <= 8,
    ensures
        header_progress(header().take(n)) == n,
    decreases n,
{
    if n > 0 {
        lemma_header_matches_itself(n - 1);
        assert(header().take(n).drop_last() =~= header().take(n - 1));
    }
}

/// The first `n` bytes of the footer pattern give footer progress `n`.
pub proof fn lemma_footer_matches_itself(n: int)
    requires
        0 <= n <= 8,
    ensures
        footer_progress(footer().take(n)) == n,
    decreases n,
{
    if n > 0 {
        lemma_footer_matches_itself(n - 1);
        assert(footer().take(n).drop_last() =~= footer().take(n - 1));
    }
}

/// After bytes that leave the footer matcher at its start, it behaves as on
/// a fresh input.
pub proof fn lemma_footer_restart(a: Seq<u8>, b: Seq<u8>)
    requires
        footer_progress(a) == 0,
    ensures
        footer_progress(a + b) == footer_progress(b),
    decreases b.len(),
{
    if b.len() == 0 {
        assert(a + b =~= a);
    } else {
        lemma_footer_restart(a, b.drop_last());
        assert((a + b).drop_last() =~= a + b.drop_last());
    }
}

/// Once the footer pattern is complete, each further byte counts.
pub proof fn lemma_checksum_progress(bytes: Seq<u8>, more: Seq<u8>)
    requires
        footer_progress(bytes) == 8,
        more.len() <= 4,
    ensures
        footer_progress(bytes + more) == 8 + more.len(),
    decreases more.len(),
{
    if more.len() == 0 {
        assert(bytes + more =~= bytes);
    } else {
        lemma_checksum_progress(bytes, more.drop_last());
        assert((bytes + more).drop_last() =~= bytes + more.drop_last());
    }
}

/// While the header is not complete, the scanner's state is the header
/// progress and the matched bytes, and nothing is emitted.
pub proof fn lemma_seeking_header(count: nat, bytes: Seq<u8>)
    requires
        header_progress(bytes) < 8,
    ensures
        feed(idle(count), bytes) == (ScanState {
            phase: Phase::SeekingHeader { matched: header_progress(bytes) },
            buffer: header().take(header_progress(bytes) as int),
            count,
        }),
        emitted(idle(count), bytes) == Seq::<Seq<u8>>::empty(),
    decreases bytes.len(),
{
    if bytes.len() == 0 {
        assert(header().take(0) =~= Seq::<u8>::empty());
    } else {
        let front = bytes.drop_last();
        let i = header_progress(front);
        lemma_seeking_header(count, front);
        if bytes.last() == header()[i as int] {
            assert(header().take(i as int).push(bytes.last()) =~= header().take((i + 1) as int));
        } else {
            assert(header().take(0) =~= Seq::<u8>::empty());
        }
    }
}

/// The header pattern takes an idle scanner to the start of the footer
/// search, with the pattern in the buffer.
pub proof fn lemma_header_found(count: nat)
    ensures
        feed(idle(count), header()) == (ScanState {
            phase: Phase::SeekingFooter { matched: 0 },
            buffer: header(),
            count,
        }),
        emitted(idle(count), header()) == Seq::<Seq<u8>>::empty(),
{
    let front = header().take(7);
    lemma_header_matches_itself(7);
    lemma_seeking_header(count, front);
    assert(header().drop_last() =~= front);
    assert(front.push(header()[7]) =~= header());
}

/// Inside a candidate that is not complete, the scanner's state is the footer
/// progress and all the bytes so far, and nothing is emitted.
pub proof fn lemma_in_candidate(s: ScanState, bytes: Seq<u8>)
    requires
        s.phase == (Phase::SeekingFooter { matched: 0 }),
        footer_progress(bytes) < 12,
    ensures
        feed(s, bytes) == (ScanState {
            phase: phase_at(footer_progress(bytes)),
            buffer: s.buffer + bytes,
            count: s.count,
        }),
        emitted(s, bytes) == Seq::<Seq<u8>>::empty(),
    decreases bytes.len(),
{
    if bytes.len() == 0 {
        assert(s.buffer + bytes =~= s.buffer);
    } else {
        let front = bytes.drop_last();
        lemma_in_candidate(s, front);
        assert((s.buffer + front).push(bytes.last()) =~= s.buffer + bytes);
    }
}

/// The count of a state does not influence what the scanner finds: with
/// another count, the same payloads are emitted and the same state is
/// reached, but for the count.
pub proof fn lemma_count_is_carried(s: ScanState, count: nat, bytes: Seq<u8>)
    ensures
        emitted(ScanState { count, ..s }, bytes) == emitted(s, bytes),
        feed(ScanState { count, ..s }, bytes) == (ScanState {
            count: count + emitted(s, bytes).len(),
            ..feed(s, bytes)
        }),
    decreases bytes.len(),
{
    if bytes.len() > 0 {
        lemma_count_is_carried(s, count, bytes.drop_last());
        lemma_feed_count(s, bytes.drop_last());
    } else {
        lemma_feed_count(s, bytes);
    }
}

/// Footer progress after the first `k` bytes of the footer pattern, read at
/// progress `from`.
pub open spec fn footer_after_pattern(from: nat, k: nat) -> nat
    decreases k,
{
    if k == 0 {
        from
    } else {
        footer_next(footer_after_pattern(from, (k - 1) as nat), footer()[k - 1])
    }
}

/// The footer pattern read after `bytes` moves the footer progress as
/// `footer_after_pattern` says.
pub proof fn lemma_footer_after_pattern(bytes: Seq<u8>, k: nat)
    requires
        k <= 8,
    ensures
        footer_progress(bytes + footer().take(k as int)) == footer_after_pattern(
            footer_progress(bytes),
            k,
        ),
    decreases k,
{
    if k == 0 {
        assert(bytes + footer().take(0) =~= bytes);
    } else {
        lemma_footer_after_pattern(bytes, (k - 1) as nat);
        assert((bytes + footer().take(k as int)).drop_last() =~= bytes + footer().take(k - 1));
    }
}

/// Read in the middle of a started match, the footer pattern is not
/// recognised: the matcher does not back up, and ends at its start.
pub proof fn lemma_pattern_missed(from: nat)
    requires
        1 <= from <= 7,
    ensures
        footer_after_pattern(from, 8) == 0,
{
    reveal_with_fuel(footer_after_pattern, 9);
}

/// Each byte moves the footer progress up by one at most.
pub proof fn lemma_footer_progress_step(a: Seq<u8>, b: Seq<u8>)
    ensures
        footer_progress(a + b) <= footer_progress(a) + b.len(),
    decreases b.len(),
{
    if b.len() == 0 {
        assert(a + b =~= a);
    } else {
        lemma_footer_progress_step(a, b.drop_last());
        assert((a + b).drop_last() =~= a + b.drop_last());
    }
}

/// Once the footer pattern is complete, every byte counts until the
/// candidate is complete.
pub proof fn lemma_capture_completes(a: Seq<u8>, b: Seq<u8>)
    requires
        footer_progress(a) >= 8,
    ensures
        footer_progress(a + b) == if footer_progress(a) + b.len() >= 12 {
            12
        } else {
            footer_progress(a) + b.len()
        },
    decreases b.len(),
{
    lemma_progress_bounds(a);
    if b.len() == 0 {
        assert(a + b =~= a);
    } else {
        lemma_capture_completes(a, b.drop_last());
        assert((a + b).drop_last() =~= a + b.drop_last());
    }
}

/// Bytes that complete the candidate make the scanner emit, and the first
/// payload ends within them.
pub proof fn lemma_first_completion(s: ScanState, bytes: Seq<u8>)
    requires
        s.phase == (Phase::SeekingFooter { matched: 0 }),
        footer_progress(bytes) == 12,
    ensures
        emitted(s, bytes).len() >= 1,
        emitted(s, bytes)[0].len() <= s.buffer.len() + bytes.len(),
    decreases bytes.len(),
{
    let front = bytes.drop_last();
    if footer_progress(front) == 12 {
        lemma_first_completion(s, front);
    } else {
        lemma_in_candidate(s, front);
    }
}

} // verus!
