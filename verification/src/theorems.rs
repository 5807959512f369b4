//! What a scanner finds in streams of a known shape.
//!
//! The statements are about the model; `PngSearch::add_bytes` ties the
//! executable scanner to it.

use vstd::prelude::*;
use crate::matching::{
    footer_progress, header_progress, lemma_capture_completes, lemma_checksum_progress,
    lemma_count_is_carried, lemma_first_completion, lemma_footer_after_pattern,
    lemma_footer_matches_itself, lemma_footer_progress_step, lemma_footer_restart,
    lemma_header_found, lemma_in_candidate, lemma_pattern_missed, lemma_progress_bounds,
    lemma_seeking_header,
};
use crate::model::{
    delimited, emitted, extracted, feed, idle, initial, lemma_emitted_delimited,
    lemma_emitted_len, lemma_feed_concat, lemma_feed_count, lemma_feed_push, Phase, ScanState,
};
use crate::signature::{footer, header};

verus! {

/// A complete image: the header pattern, a body, the footer pattern and a
/// checksum.
pub open spec fn span(content: Seq<u8>, checksum: Seq<u8>) -> Seq<u8> {
    header() + content + footer() + checksum
}

/// A stretch of a stream: filler bytes, followed by one complete image.
pub struct Piece {
    pub filler: Seq<u8>,
    pub content: Seq<u8>,
    pub checksum: Seq<u8>,
}

/// The filler leaves the header matcher at its start, the body leaves the
/// footer matcher at its start, and the checksum has four bytes.
pub open spec fn clean(piece: Piece) -> bool {
    &&& header_progress(piece.filler) == 0
    &&& footer_progress(piece.content) == 0
    &&& piece.checksum.len() == 4
}

/// The bytes of a piece.
pub open spec fn stretch(piece: Piece) -> Seq<u8> {
    piece.filler + span(piece.content, piece.checksum)
}

/// The stream made of the given pieces, in order.
pub open spec fn assemble(pieces: Seq<Piece>) -> Seq<u8>
    decreases pieces.len(),
{
    if pieces.len() == 0 {
        Seq::empty()
    } else {
        assemble(pieces.drop_last()) + stretch(pieces.last())
    }
}

/// The images of the given pieces, in order.
pub open spec fn spans(pieces: Seq<Piece>) -> Seq<Seq<u8>> {
    Seq::new(pieces.len(), |i: int| span(pieces[i].content, pieces[i].checksum))
}

/// An idle scanner that reads a complete image whose body leaves the footer
/// matcher at its start emits that image, whole, and is idle again.
pub proof fn lemma_span_is_emitted(count: nat, content: Seq<u8>, checksum: Seq<u8>)
    requires
        footer_progress(content) == 0,
        checksum.len() == 4,
    ensures
        feed(idle(count), span(content, checksum)) == idle(count + 1),
        emitted(idle(count), span(content, checksum)) == seq![span(content, checksum)],
{
    let found = ScanState {
        phase: Phase::SeekingFooter { matched: 0 },
        buffer: header(),
        count,
    };
    let body = content + footer() + checksum.take(3);
    let last = checksum[3];
    lemma_header_found(count);
    assert(footer_progress(body) == 11) by {
        lemma_footer_matches_itself(8);
        assert(footer().take(8) =~= footer());
        lemma_checksum_progress(footer(), checksum.take(3));
        lemma_footer_restart(content, footer() + checksum.take(3));
        assert(content + (footer() + checksum.take(3)) =~= body);
    }
    lemma_in_candidate(found, body);
    lemma_feed_concat(idle(count), header(), body);
    lemma_feed_push(idle(count), header() + body, last);
    assert((header() + body).push(last) =~= span(content, checksum));
    assert(Seq::<Seq<u8>>::empty().push(span(content, checksum)) =~= seq![span(content, checksum)]);
}

/// An idle scanner that reads a complete image, and nothing else, emits that
/// image, and only it, exactly when the body leaves the footer matcher at its
/// start. With any other body the footer pattern is missed, or a payload
/// ends before the image does.
pub proof fn theorem_span_found_exactly_when(count: nat, content: Seq<u8>, checksum: Seq<u8>)
    requires
        checksum.len() == 4,
    ensures
        emitted(idle(count), span(content, checksum)) == seq![span(content, checksum)]
            <==> footer_progress(content) == 0,
{
    let image = span(content, checksum);
    let progress = footer_progress(content);
    if progress == 0 {
        lemma_span_is_emitted(count, content, checksum);
    } else {
        let found = ScanState {
            phase: Phase::SeekingFooter { matched: 0 },
            buffer: header(),
            count,
        };
        let closed = content + footer();
        let body = closed + checksum;
        lemma_header_found(count);
        lemma_feed_concat(idle(count), header(), body);
        assert(header() + body =~= image);
        assert(Seq::<Seq<u8>>::empty() + emitted(found, body) =~= emitted(found, body));
        assert(emitted(idle(count), image) == emitted(found, body));
        lemma_progress_bounds(content);
        assert(footer().take(8) =~= footer());
        if progress < 8 {
            lemma_footer_after_pattern(content, 8);
            lemma_pattern_missed(progress);
            lemma_footer_progress_step(closed, checksum);
            lemma_in_candidate(found, body);
        } else {
            lemma_capture_completes(content, footer());
            lemma_first_completion(found, closed);
            lemma_feed_concat(found, closed, checksum);
            let first = emitted(found, closed)[0];
            assert(emitted(found, body)[0] == first);
            assert(first.len() < image.len());
        }
    }
}

/// A stretch of a stream that is clean takes an idle scanner to the idle
/// state again, with its image emitted and nothing else.
pub proof fn lemma_piece_is_emitted(count: nat, piece: Piece)
    requires
        clean(piece),
    ensures
        feed(idle(count), stretch(piece)) == idle(count + 1),
        emitted(idle(count), stretch(piece)) == seq![span(piece.content, piece.checksum)],
{
    let image = span(piece.content, piece.checksum);
    lemma_seeking_header(count, piece.filler);
    assert(header().take(0) =~= Seq::<u8>::empty());
    lemma_span_is_emitted(count, piece.content, piece.checksum);
    lemma_feed_concat(idle(count), piece.filler, image);
    assert(Seq::<Seq<u8>>::empty() + seq![image] =~= seq![image]);
}

/// A stream of clean pieces takes a new scanner to the idle state, with one
/// image emitted per piece, in order.
pub proof fn lemma_pieces_are_emitted(pieces: Seq<Piece>)
    requires
        forall|i: int| 0 <= i < pieces.len() ==> clean(#[trigger] pieces[i]),
    ensures
        feed(initial(), assemble(pieces)) == idle(pieces.len()),
        extracted(assemble(pieces)) == spans(pieces),
    decreases pieces.len(),
{
    if pieces.len() == 0 {
        assert(spans(pieces) =~= Seq::<Seq<u8>>::empty());
    } else {
        let front = pieces.drop_last();
        let piece = pieces.last();
        lemma_pieces_are_emitted(front);
        lemma_piece_is_emitted(front.len(), piece);
        lemma_feed_concat(initial(), assemble(front), stretch(piece));
        assert(spans(front) + seq![span(piece.content, piece.checksum)] =~= spans(pieces));
    }
}

/// In a stream made of complete images with filler between them, followed by
/// bytes that hold no image, a new scanner finds exactly those images, in
/// the order in which they occur, and counts them. The k-th of them is then
/// the artifact with ordinal k.
///
/// The images must be found where they start and must end where their footer
/// is: each filler leaves the header matcher at its start, and each body
/// leaves the footer matcher at its start.
pub proof fn theorem_separated_spans(pieces: Seq<Piece>, tail: Seq<u8>)
    requires
        forall|i: int| 0 <= i < pieces.len() ==> clean(#[trigger] pieces[i]),
        extracted(tail).len() == 0,
    ensures
        extracted(assemble(pieces) + tail) == spans(pieces),
        extracted(assemble(pieces) + tail).len() == pieces.len(),
        feed(initial(), assemble(pieces) + tail).count == pieces.len(),
{
    lemma_pieces_are_emitted(pieces);
    lemma_feed_concat(initial(), assemble(pieces), tail);
    lemma_count_is_carried(initial(), pieces.len(), tail);
    assert(idle(pieces.len()) == ScanState { count: pieces.len(), ..initial() });
    assert(extracted(tail) =~= Seq::<Seq<u8>>::empty());
    assert(spans(pieces) + extracted(tail) =~= spans(pieces));
    lemma_feed_count(initial(), assemble(pieces) + tail);
}

/// A stream that holds one complete image, after bytes that leave the header
/// matcher at its start and before bytes that hold no image, gives exactly
/// that image, byte for byte.
///
/// The body must leave the footer matcher at its start: the image ends with
/// the first footer pattern that the matcher completes, and a body that ends
/// in a part of the pattern makes it miss the real one.
pub proof fn theorem_embedded_span(
    prefix: Seq<u8>,
    content: Seq<u8>,
    checksum: Seq<u8>,
    suffix: Seq<u8>,
)
    requires
        header_progress(prefix) == 0,
        footer_progress(content) == 0,
        checksum.len() == 4,
        extracted(suffix).len() == 0,
    ensures
        extracted(prefix + span(content, checksum) + suffix) == seq![span(content, checksum)],
        feed(initial(), prefix + span(content, checksum) + suffix).count == 1,
{
    let piece = Piece { filler: prefix, content, checksum };
    let pieces = seq![piece];
    assert(pieces.drop_last() =~= Seq::<Piece>::empty());
    assert(assemble(pieces.drop_last()) =~= Seq::<u8>::empty());
    assert(assemble(pieces) =~= prefix + span(content, checksum));
    theorem_separated_spans(pieces, suffix);
    assert(spans(pieces) =~= seq![span(content, checksum)]);
}

/// A stream in which a header is found gives no image exactly when what
/// follows the header does not complete the candidate: when it holds no
/// footer pattern, or holds fewer than four bytes after the first one. A
/// candidate that the stream does not complete is dropped.
pub proof fn theorem_unterminated_candidate(prefix: Seq<u8>, rest: Seq<u8>)
    requires
        header_progress(prefix) == 0,
    ensures
        extracted(prefix + header() + rest).len() == 0 <==> footer_progress(rest) < 12,
        footer_progress(rest) < 12 ==> feed(initial(), prefix + header() + rest).count == 0,
{
    let found = ScanState {
        phase: Phase::SeekingFooter { matched: 0 },
        buffer: header(),
        count: 0,
    };
    lemma_seeking_header(0, prefix);
    assert(header().take(0) =~= Seq::<u8>::empty());
    lemma_header_found(0);
    lemma_feed_concat(initial(), prefix, header());
    lemma_feed_concat(initial(), prefix + header(), rest);
    lemma_feed_count(initial(), prefix + header() + rest);
    lemma_progress_bounds(rest);
    if footer_progress(rest) < 12 {
        lemma_in_candidate(found, rest);
    } else {
        lemma_first_completion(found, rest);
    }
}

/// No byte of `bytes` is the first byte of the header pattern.
pub open spec fn without_header_start(bytes: Seq<u8>) -> bool {
    forall|i: int| 0 <= i < bytes.len() ==> #[trigger] bytes[i] != header()[0]
}

/// Bytes without the first header byte leave the header matcher at its start.
pub proof fn lemma_without_header_start(bytes: Seq<u8>)
    requires
        without_header_start(bytes),
    ensures
        header_progress(bytes) == 0,
    decreases bytes.len(),
{
    if bytes.len() > 0 {
        let front = bytes.drop_last();
        assert forall|i: int| 0 <= i < front.len() implies #[trigger] front[i] != header()[0] by {
            assert(front[i] == bytes[i]);
        }
        lemma_without_header_start(front);
        assert(bytes.last() == bytes[bytes.len() - 1]);
    }
}

/// On a stream without the first byte of the header pattern, a scanner that
/// is idle stays idle throughout, with an empty buffer, and finds nothing.
pub proof fn theorem_no_header_start(count: nat, bytes: Seq<u8>)
    requires
        without_header_start(bytes),
    ensures
        forall|n: int| 0 <= n <= bytes.len() ==> #[trigger] feed(idle(count), bytes.take(n)) == idle(count),
        forall|n: int|
            0 <= n <= bytes.len() ==> (#[trigger] feed(idle(count), bytes.take(n))).buffer.len() == 0,
        emitted(idle(count), bytes) == Seq::<Seq<u8>>::empty(),
{
    assert forall|n: int| 0 <= n <= bytes.len() implies #[trigger] feed(
        idle(count),
        bytes.take(n),
    ) == idle(count) by {
        let seen = bytes.take(n);
        assert forall|i: int| 0 <= i < seen.len() implies #[trigger] seen[i] != header()[0] by {
            assert(seen[i] == bytes[i]);
        }
        lemma_without_header_start(seen);
        lemma_seeking_header(count, seen);
        assert(header().take(0) =~= Seq::<u8>::empty());
    }
    lemma_without_header_start(bytes);
    lemma_seeking_header(count, bytes);
}

/// The footer pattern, met while no header has been matched, changes
/// nothing: an idle scanner is idle after it, has emitted nothing, and goes
/// on as if the pattern had not been there.
pub proof fn theorem_footer_before_header(count: nat, rest: Seq<u8>)
    ensures
        feed(idle(count), footer()) == idle(count),
        emitted(idle(count), footer()) == Seq::<Seq<u8>>::empty(),
        feed(idle(count), footer() + rest) == feed(idle(count), rest),
        emitted(idle(count), footer() + rest) == emitted(idle(count), rest),
{
    assert(without_header_start(footer()));
    theorem_no_header_start(count, footer());
    assert(footer().take(8) =~= footer());
    lemma_feed_concat(idle(count), footer(), rest);
    assert(Seq::<Seq<u8>>::empty() + emitted(idle(count), rest) =~= emitted(idle(count), rest));
}

/// Whatever the stream, every image that a new scanner finds begins with
/// the header pattern and ends with the footer pattern and four more bytes,
/// and the images do not share bytes of the stream: each takes at least
/// twenty of them.
pub proof fn theorem_payloads_are_delimited(bytes: Seq<u8>)
    ensures
        forall|i: int| 0 <= i < extracted(bytes).len() ==> delimited(#[trigger] extracted(bytes)[i]),
        20 * extracted(bytes).len() <= bytes.len(),
{
    assert(header().take(0) =~= Seq::<u8>::empty());
    lemma_emitted_delimited(initial(), bytes);
    lemma_emitted_len(initial(), bytes);
}

} // verus!
