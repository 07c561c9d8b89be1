//! What goes over the wire.

use crate::double::quotient_in_nanos_is_not_far;
use crate::protocol::codec::{
    block, decoded, following, frame_bytes, frame_has_more, frame_reads_back, frame_size, nanos_at_rate,
    pauses, pieces_of, progress_of, throttle_keeps_the_limit, wire_is_made_of_whole_blocks, wire_of,
    without_line_feeds, AfterChunk, CHUNK_SIZE, FRAME_SIZE,
};
use vstd::prelude::*;

verus! {

/// A control frame has four bytes for the size, the most significant first, and a fifth
/// that is one where another chunk follows and zero where none does. It is read so too,
/// with any other fifth byte as one.
pub proof fn frames_have_the_size_big_end_first(size: int, has_more: bool, frame: Seq<u8>)
    requires
        0 <= size <= u32::MAX,
    ensures
        ({
            let f = frame_bytes(size, has_more);
            &&& f.len() == 5
            &&& f[0] * 0x100_0000 + f[1] * 0x1_0000 + f[2] * 0x100 + f[3] == size
            &&& f[4] == if has_more {
                1u8
            } else {
                0u8
            }
        }),
        frame_size(frame) == frame[0] * 0x100_0000 + frame[1] * 0x1_0000 + frame[2] * 0x100
            + frame[3],
        frame_has_more(frame) <==> frame[4] != 0,
{
    frame_reads_back(size, has_more);
}

/// Reading takes the chunk up to the size its frame gives, and goes on exactly where the
/// frame says that more follows. A wire that ends within a chunk or its frame is not read.
pub proof fn chunks_are_read_one_by_one(chunk: Seq<u8>, frame: Seq<u8>, rest: Seq<u8>)
    requires
        chunk.len() == 4_194_304,
        frame.len() == 5,
    ensures
        ({
            let size = frame[0] * 0x100_0000 + frame[1] * 0x1_0000 + frame[2] * 0x100 + frame[3];
            decoded(chunk + frame + rest) == if size > 4_194_304 {
                None::<(Seq<u8>, int)>
            } else if frame[4] == 0 {
                Some((chunk.take(size), 4_194_309int))
            } else {
                match decoded(rest) {
                    Some((data, used)) => Some((chunk.take(size) + data, 4_194_309 + used)),
                    None => None,
                }
            }
        }),
        forall|short: Seq<u8>| short.len() < 4_194_309 ==> (#[trigger] decoded(short)) is None,
{
    let wire = chunk + frame + rest;
    let size = frame[0] * 0x100_0000 + frame[1] * 0x1_0000 + frame[2] * 0x100 + frame[3];
    assert(wire.subrange(CHUNK_SIZE as int, CHUNK_SIZE + FRAME_SIZE) =~= frame);
    assert(wire.skip(CHUNK_SIZE + FRAME_SIZE) =~= rest);
    if size <= 4_194_304 {
        assert(wire.take(size) =~= chunk.take(size));
    }
}

/// A stream is cut into pieces of four mebibytes, in order; only the last is shorter, and
/// an empty stream is one empty piece.
pub proof fn pieces_are_cut_in_order(data: Seq<u8>, i: int)
    ensures
        pieces_of(data).len() == if data.len() == 0 {
            1
        } else {
            (data.len() + 4_194_303) / 4_194_304
        },
        0 <= i < pieces_of(data).len() ==> pieces_of(data)[i] == data.subrange(
            i * 4_194_304,
            if (i + 1) * 4_194_304 < data.len() {
                (i + 1) * 4_194_304
            } else {
                data.len() as int
            },
        ),
    decreases data.len(),
{
    if data.len() <= 4_194_304 {
        assert(data.subrange(0, data.len() as int) =~= data);
    } else {
        let tail = data.skip(4_194_304);
        pieces_are_cut_in_order(tail, i - 1);
        if 0 <= i < pieces_of(data).len() {
            if i == 0 {
                assert(data.take(4_194_304) =~= data.subrange(0, 4_194_304));
            } else {
                let from = (i - 1) * 4_194_304;
                let to = if i * 4_194_304 < tail.len() {
                    i * 4_194_304
                } else {
                    tail.len() as int
                };
                assert(pieces_of(data)[i] == pieces_of(tail)[i - 1]);
                assert(tail.subrange(from, to) =~= data.subrange(
                    from + 4_194_304,
                    to + 4_194_304,
                ));
            }
        }
    }
}

/// On the wire, the piece at `i` begins at the `i`-th multiple of a chunk and its frame.
/// Behind its bytes stand zeros up to the end of the chunk, and then the frame, with the
/// piece's length and whether another follows.
pub proof fn pieces_stand_at_their_place(pieces: Seq<Seq<u8>>, i: int, j: int)
    requires
        forall|k: int| 0 <= k < pieces.len() ==> (#[trigger] pieces[k]).len() <= 4_194_304,
        0 <= i < pieces.len(),
        0 <= j < 4_194_309,
    ensures
        0 <= i * 4_194_309 + j < wire_of(pieces).len(),
        ({
            let at = wire_of(pieces)[i * 4_194_309 + j];
            if j < pieces[i].len() {
                at == pieces[i][j]
            } else if j < 4_194_304 {
                at == 0
            } else if j == 4_194_308 {
                at == if i + 1 < pieces.len() {
                    1u8
                } else {
                    0u8
                }
            } else {
                at == frame_bytes(pieces[i].len() as int, i + 1 < pieces.len())[j - 4_194_304]
            }
        }),
    decreases pieces.len(),
{
    let rest = pieces.drop_first();
    wire_is_made_of_whole_blocks(pieces);
    let first = block(pieces[0], pieces.len() > 1);
    assert(pieces[0].len() <= 4_194_304);
    assert(first.len() == 4_194_309);
    assert(wire_of(pieces) == first + wire_of(rest));
    assert forall|k: int| 0 <= k < rest.len() implies (#[trigger] rest[k]).len() <= 4_194_304 by {
        assert(rest[k] == pieces[k + 1]);
    }
    if i > 0 {
        pieces_stand_at_their_place(rest, i - 1, j);
        assert(rest[i - 1] == pieces[i]);
        assert(wire_of(pieces)[i * 4_194_309 + j] == wire_of(rest)[(i - 1) * 4_194_309 + j]);
    } else {
        assert(wire_of(pieces)[j] == first[j]);
    }
}

/// After each piece the count of bytes up to its end is reported, with the total beside
/// it: once for each piece, and in the end all bytes.
pub proof fn progress_is_counted_piece_by_piece(data: Seq<u8>, total: u64, i: int)
    requires
        data.len() <= u64::MAX,
    ensures
        progress_of(pieces_of(data), 0, total).len() == pieces_of(data).len(),
        0 <= i < pieces_of(data).len() ==> progress_of(pieces_of(data), 0, total)[i] == (
            if (i + 1) * 4_194_304 < data.len() {
                ((i + 1) * 4_194_304) as u64
            } else {
                data.len() as u64
            },
            total,
        ),
{
    lemma_progress(data, 0, total, i);
}

proof fn lemma_progress(data: Seq<u8>, sent: int, total: u64, i: int)
    requires
        0 <= sent,
        sent + data.len() <= u64::MAX,
    ensures
        progress_of(pieces_of(data), sent, total).len() == pieces_of(data).len(),
        0 <= i < pieces_of(data).len() ==> progress_of(pieces_of(data), sent, total)[i] == (
            (sent + if (i + 1) * 4_194_304 < data.len() {
                (i + 1) * 4_194_304
            } else {
                data.len() as int
            }) as u64,
            total,
        ),
    decreases data.len(),
{
    let pieces = pieces_of(data);
    if data.len() <= 4_194_304 {
        assert(pieces.drop_first() =~= seq![]);
        assert(progress_of(pieces.drop_first(), sent + data.len(), total) =~= seq![]);
    } else {
        let tail = data.skip(4_194_304);
        assert(pieces.drop_first() =~= pieces_of(tail));
        lemma_progress(tail, sent + 4_194_304, total, i - 1);
        let more = progress_of(pieces_of(tail), sent + 4_194_304, total);
        if i > 0 && i < pieces.len() {
            assert(progress_of(pieces, sent, total)[i] == more[i - 1]);
        }
    }
}

/// A message is its line without the line feeds at its end: all of them, and no other
/// character.
pub proof fn only_line_feeds_are_taken_off(line: Seq<char>)
    ensures
        without_line_feeds(line).len() > 0 ==> without_line_feeds(line).last() != '\n',
        exists|b: Seq<char>|
            line == #[trigger] (without_line_feeds(line) + b) && forall|i: int|
                0 <= i < b.len() ==> #[trigger] b[i] == '\n',
    decreases line.len(),
{
    if line.len() > 0 && line.last() == '\n' {
        let rest = line.drop_last();
        only_line_feeds_are_taken_off(rest);
        let b = choose|b: Seq<char>|
            rest == #[trigger] (without_line_feeds(rest) + b) && forall|i: int|
                0 <= i < b.len() ==> #[trigger] b[i] == '\n';
        let c = b.push('\n');
        assert(line =~= rest.push('\n'));
        assert((without_line_feeds(rest) + b).push('\n') =~= without_line_feeds(line) + c);
        assert(line == without_line_feeds(line) + c);
    } else {
        assert(line =~= without_line_feeds(line) + Seq::empty());
    }
}

/// The time that some bytes take at a rate is not longer than it needs to be, to a
/// millisecond; and no bytes take no time.
pub proof fn throttle_does_not_dawdle(bytes: int, rate: int)
    requires
        rate > 0,
        0 <= bytes <= rate * 274_877_906_944,
    ensures
        rate * nanos_at_rate(bytes, rate) <= bytes * 1_000_000_000 + rate * 1_000_000,
        bytes == 0 ==> nanos_at_rate(bytes, rate) == 0,
{
    if bytes == 0 {
        assert(nanos_at_rate(bytes, rate) == 0) by {
            assert(0 * 1_000_000_000 == 0);
        }
        assert(rate * 0 == 0);
    } else {
        quotient_in_nanos_is_not_far(bytes, rate);
        let n = nanos_at_rate(bytes, rate);
        assert(rate * n == rate * (n - 1_000_000) + rate * 1_000_000) by (nonlinear_arith);
    }
}

/// With the pause a stream is neither faster than its limit nor slower than it need be, to
/// a millisecond; where there is none, it is behind already.
pub proof fn pauses_keep_the_limit(bytes: int, rate: int, elapsed: int, r: Option<u128>)
    requires
        rate > 0,
        0 <= bytes <= rate * 274_877_906_944,
        elapsed >= 0,
        pauses(bytes, rate, elapsed, r),
    ensures
        match r {
            Some(pause) => bytes * 1_000_000_000 <= rate * (elapsed + pause + 1_000_000) && rate * (
            elapsed + pause) <= bytes * 1_000_000_000 + rate * 1_000_000,
            None => bytes * 1_000_000_000 <= rate * (elapsed + 1_000_000),
        },
{
    match r {
        Some(pause) => {
            throttle_keeps_the_limit(bytes, rate, elapsed, pause as int);
            throttle_does_not_dawdle(bytes, rate);
        },
        None => {
            throttle_keeps_the_limit(bytes, rate, elapsed, 0);
        },
    }
}

/// A stream is complete exactly where no chunk is to come, whoever calls it off. Where one
/// is to come, it comes unless the transfer was called off.
pub proof fn complete_streams_cannot_be_called_off(has_more: bool, cancelled: bool)
    ensures
        following(has_more, cancelled) is Done <==> !has_more,
        following(has_more, cancelled) is Cancelled <==> has_more && cancelled,
        following(has_more, cancelled) is More <==> has_more && !cancelled,
{
}

} // verus!
