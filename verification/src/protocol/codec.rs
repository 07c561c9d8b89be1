//! What goes over the wire: messages as lines of JSON, and the `zfs send` stream
//! as fixed-size chunks, each with a control frame behind it.

use crate::double::{divided, nearest, quotient_in_nanos_is_close, rounded_times, Double};
use crate::text::{chars_of, string_of};
use vstd::prelude::*;
use vstd::slice::slice_subrange;
use vstd::string::*;

verus! {

/// Bytes in a chunk: 4 MiB.
pub const CHUNK_SIZE: usize = 4_194_304;

/// Bytes in the control frame behind a chunk.
pub const FRAME_SIZE: usize = 5;

// ---------------------------------------------------------------------------
// Messages
// ---------------------------------------------------------------------------

/// The server's state: its newest managed snapshot of the target, and the token
/// of an interrupted transfer.
#[derive(Debug, Clone, PartialEq, Eq)]
pub struct ServerHello {
    pub version: String,
    pub head: Option<String>,
    pub resume_token: Option<String>,
}

/// Who the client is and where it wants to send to.
#[derive(Debug, Clone, PartialEq, Eq)]
pub struct ClientHello {
    pub version: String,
    pub client_name: String,
    pub target: String,
}

/// The server's answer: to the version, to the request, or to the transfer.
#[derive(Debug, Clone, PartialEq, Eq)]
pub struct ServerStatus {
    pub ok: bool,
    pub message: String,
}

impl ServerStatus {
    /// Whether this is the status with these fields.
    pub open spec fn says(self, ok: bool, message: Seq<char>) -> bool {
        self.ok == ok && self.message@ == message
    }
}

/// Whether the client has a stream to send.
#[derive(Debug, Clone, PartialEq, Eq)]
pub struct ClientReady {
    pub ok: bool,
    pub message: String,
}

impl ClientReady {
    /// Whether this is the message with these fields.
    pub open spec fn says(self, ok: bool, message: Seq<char>) -> bool {
        self.ok == ok && self.message@ == message
    }
}

/// Why a message or a stream did not get through.
#[derive(Debug, Clone, PartialEq, Eq)]
pub enum CodecError {
    /// Reading or writing failed, as the text says.
    Io(String),
    /// A message was not the JSON it should be, as the text says.
    Json(String),
    /// The user gave up on the transfer.
    Cancelled,
}

impl CodecError {
    /// The text of the error.
    pub open spec fn text(self) -> Seq<char> {
        match self {
            CodecError::Io(e) => "I/O error: "@ + e@,
            CodecError::Json(e) => "JSON error: "@ + e@,
            CodecError::Cancelled => "transfer cancelled"@,
        }
    }

    /// The text of the error.
    pub fn message(&self) -> (r: String)
        ensures
            r@ == self.text(),
    {
        match self {
            CodecError::Io(e) => "I/O error: ".to_owned().concat(e.as_str()),
            CodecError::Json(e) => "JSON error: ".to_owned().concat(e.as_str()),
            CodecError::Cancelled => "transfer cancelled".to_owned(),
        }
    }
}

/// The bytes of a message on the wire: its JSON and a line feed.
pub fn encode_json(json: Vec<u8>) -> (r: Vec<u8>)
    ensures
        r@ == json@.push(10),
{
    let mut bytes = json;
    bytes.push(10);
    bytes
}

/// A text without the line feeds that end it.
pub open spec fn without_line_feeds(s: Seq<char>) -> Seq<char>
    decreases s.len(),
{
    if s.len() > 0 && s.last() == '\n' {
        without_line_feeds(s.drop_last())
    } else {
        s
    }
}

/// The JSON in a line as it was read, or an error where there was nothing left to
/// read.
pub fn decode_json(line: &str) -> (r: Result<String, CodecError>)
    ensures
        match r {
            Ok(json) => line@.len() > 0 && json@ == without_line_feeds(line@),
            Err(CodecError::Io(e)) => line@.len() == 0 && e@ == "connection closed mid-message"@,
            Err(_) => false,
        },
{
    let cs = chars_of(line);
    let mut end: usize = cs.len();
    if end == 0 {
        return Err(CodecError::Io("connection closed mid-message".to_owned()));
    }
    assert(line@.take(end as int) =~= line@);
    while end > 0 && cs[end - 1] == '\n'
        invariant
            cs@ == line@,
            end <= cs@.len(),
            without_line_feeds(line@.take(end as int)) == without_line_feeds(line@),
        decreases end,
    {
        assert(line@.take(end as int).drop_last() =~= line@.take(end - 1));
        end = end - 1;
    }
    assert(line@.take(end as int) =~= line@.subrange(0, end as int));
    Ok(string_of(cs.as_slice(), 0, end))
}

/// The line that carries a message reads back as that message, for any JSON text
/// that does not itself end in a line feed.
pub proof fn message_reads_back(json: Seq<char>)
    requires
        json.len() > 0 ==> json.last() != '\n',
    ensures
        json.push('\n').len() > 0,
        without_line_feeds(json.push('\n')) == json,
{
    assert(json.push('\n').drop_last() =~= json);
    reveal_with_fuel(without_line_feeds, 2);
}

// ---------------------------------------------------------------------------
// Control frames
// ---------------------------------------------------------------------------

/// The control frame of a chunk: how many of its bytes are data, big end first,
/// and whether another chunk follows.
pub open spec fn frame_bytes(actual_size: int, has_more: bool) -> Seq<u8> {
    seq![
        ((actual_size / 16_777_216) % 256) as u8,
        ((actual_size / 65_536) % 256) as u8,
        ((actual_size / 256) % 256) as u8,
        (actual_size % 256) as u8,
        if has_more {
            1u8
        } else {
            0u8
        },
    ]
}

/// The size a control frame gives.
pub open spec fn frame_size(frame: Seq<u8>) -> int {
    frame[0] * 16_777_216 + frame[1] * 65_536 + frame[2] * 256 + frame[3]
}

/// Whether a control frame says that another chunk follows.
pub open spec fn frame_has_more(frame: Seq<u8>) -> bool {
    frame[4] != 0
}

/// A control frame gives back the size and the flag it was made from.
pub proof fn frame_reads_back(actual_size: int, has_more: bool)
    requires
        0 <= actual_size <= u32::MAX,
    ensures
        frame_bytes(actual_size, has_more).len() == FRAME_SIZE,
        frame_size(frame_bytes(actual_size, has_more)) == actual_size,
        frame_has_more(frame_bytes(actual_size, has_more)) == has_more,
{
    let n = actual_size;
    assert(n / 65_536 == (n / 16_777_216) * 256 + (n / 65_536) % 256);
    assert(n / 256 == (n / 65_536) * 256 + (n / 256) % 256);
    assert(n == (n / 256) * 256 + n % 256);
}

/// The control frame of a chunk with `actual_size` bytes of data.
pub fn make_frame(actual_size: u32, has_more: bool) -> (r: [u8; 5])
    ensures
        r@ == frame_bytes(actual_size as int, has_more),
{
    let more: u8 = if has_more {
        1
    } else {
        0
    };
    let r: [u8; 5] = [
        ((actual_size / 16_777_216) % 256) as u8,
        ((actual_size / 65_536) % 256) as u8,
        ((actual_size / 256) % 256) as u8,
        (actual_size % 256) as u8,
        more,
    ];
    assert(r@ =~= frame_bytes(actual_size as int, has_more));
    r
}

/// What a control frame says: the size of the data and whether a chunk follows.
pub fn parse_frame(frame: &[u8]) -> (r: (u32, bool))
    requires
        frame@.len() == FRAME_SIZE,
    ensures
        r.0 == frame_size(frame@),
        r.1 == frame_has_more(frame@),
{
    let size: u32 = frame[0] as u32 * 16_777_216 + frame[1] as u32 * 65_536 + frame[2] as u32 * 256
        + frame[3] as u32;
    (size, frame[4] != 0)
}

// ---------------------------------------------------------------------------
// The stream
// ---------------------------------------------------------------------------

/// `data` in a chunk, with zeros behind it.
pub open spec fn padded(data: Seq<u8>) -> Seq<u8> {
    data + Seq::new((CHUNK_SIZE - data.len()) as nat, |i: int| 0u8)
}

/// A chunk that holds `data`, and its control frame.
pub open spec fn block(data: Seq<u8>, has_more: bool) -> Seq<u8> {
    padded(data) + frame_bytes(data.len() as int, has_more)
}

/// The wire form of a stream that was read in `pieces`, none longer than a chunk:
/// a chunk for each, all but the last with the flag that more follow.
pub open spec fn wire_of(pieces: Seq<Seq<u8>>) -> Seq<u8>
    decreases pieces.len(),
{
    if pieces.len() == 0 {
        seq![]
    } else {
        block(pieces[0], pieces.len() > 1) + wire_of(pieces.drop_first())
    }
}

/// The bytes of all `pieces`, one after the other.
pub open spec fn joined(pieces: Seq<Seq<u8>>) -> Seq<u8>
    decreases pieces.len(),
{
    if pieces.len() == 0 {
        seq![]
    } else {
        pieces[0] + joined(pieces.drop_first())
    }
}

/// How a stream falls into pieces: whole chunks, and what is left over. An empty
/// stream is one empty piece.
pub open spec fn pieces_of(data: Seq<u8>) -> Seq<Seq<u8>>
    decreases data.len(),
{
    if data.len() <= CHUNK_SIZE {
        seq![data]
    } else {
        seq![data.take(CHUNK_SIZE as int)] + pieces_of(data.skip(CHUNK_SIZE as int))
    }
}

/// What a reader makes of a wire: the data and how much of the wire it took; or
/// nothing, where the wire ends before the stream does or a frame gives a size
/// beyond the chunk.
pub open spec fn decoded(wire: Seq<u8>) -> Option<(Seq<u8>, int)>
    decreases wire.len(),
{
    if wire.len() < CHUNK_SIZE + FRAME_SIZE {
        None
    } else {
        let frame = wire.subrange(CHUNK_SIZE as int, CHUNK_SIZE + FRAME_SIZE);
        if frame_size(frame) > CHUNK_SIZE {
            None
        } else if !frame_has_more(frame) {
            Some((wire.take(frame_size(frame)), CHUNK_SIZE + FRAME_SIZE))
        } else {
            match decoded(wire.skip(CHUNK_SIZE + FRAME_SIZE)) {
                Some((rest, used)) => Some(
                    (wire.take(frame_size(frame)) + rest, CHUNK_SIZE + FRAME_SIZE + used),
                ),
                None => None,
            }
        }
    }
}

/// The data a reader makes of a wire, where it makes any.
pub open spec fn decoded_data(wire: Seq<u8>) -> Seq<u8> {
    match decoded(wire) {
        Some((data, _)) => data,
        None => seq![],
    }
}

/// What is read of a wire is what was put on it, and reading stops where the
/// stream ends, whatever follows on the wire.
pub proof fn stream_reads_back(pieces: Seq<Seq<u8>>, after: Seq<u8>)
    requires
        pieces.len() > 0,
        forall|i: int| 0 <= i < pieces.len() ==> (#[trigger] pieces[i]).len() <= CHUNK_SIZE,
    ensures
        decoded(wire_of(pieces) + after) == Some((joined(pieces), wire_of(pieces).len() as int)),
    decreases pieces.len(),
{
    let data = pieces[0];
    let rest = pieces.drop_first();
    let wire = wire_of(pieces) + after;
    let first = block(data, pieces.len() > 1);
    frame_reads_back(data.len() as int, pieces.len() > 1);
    assert(wire =~= first + (wire_of(rest) + after));
    assert(wire.subrange(CHUNK_SIZE as int, CHUNK_SIZE + FRAME_SIZE) =~= frame_bytes(
        data.len() as int,
        pieces.len() > 1,
    ));
    assert(wire.take(data.len() as int) =~= data);
    assert(wire.skip(CHUNK_SIZE + FRAME_SIZE) =~= wire_of(rest) + after);
    if rest.len() > 0 {
        assert forall|i: int| 0 <= i < rest.len() implies (#[trigger] rest[i]).len()
            <= CHUNK_SIZE by {
            assert(rest[i] == pieces[i + 1]);
        }
        stream_reads_back(rest, after);
    } else {
        assert(joined(rest) =~= seq![]);
        assert(joined(pieces) =~= data);
    }
}

/// On the wire every piece takes a whole chunk and its frame.
pub proof fn wire_is_made_of_whole_blocks(pieces: Seq<Seq<u8>>)
    requires
        forall|i: int| 0 <= i < pieces.len() ==> (#[trigger] pieces[i]).len() <= CHUNK_SIZE,
    ensures
        wire_of(pieces).len() == pieces.len() * (CHUNK_SIZE + FRAME_SIZE),
    decreases pieces.len(),
{
    if pieces.len() > 0 {
        let rest = pieces.drop_first();
        assert forall|i: int| 0 <= i < rest.len() implies (#[trigger] rest[i]).len()
            <= CHUNK_SIZE by {
            assert(rest[i] == pieces[i + 1]);
        }
        wire_is_made_of_whole_blocks(rest);
        assert(pieces[0].len() <= CHUNK_SIZE);
        assert(block(pieces[0], pieces.len() > 1).len() == CHUNK_SIZE + FRAME_SIZE);
    }
}

/// The pieces of a stream are the stream, and each fits a chunk.
pub proof fn pieces_make_the_stream(data: Seq<u8>)
    ensures
        joined(pieces_of(data)) == data,
        pieces_of(data).len() > 0,
        forall|i: int| 0 <= i < pieces_of(data).len() ==> (#[trigger] pieces_of(data)[i]).len()
            <= CHUNK_SIZE,
    decreases data.len(),
{
    let pieces = pieces_of(data);
    if data.len() <= CHUNK_SIZE {
        assert(pieces.drop_first() =~= seq![]);
        assert(joined(pieces.drop_first()) =~= seq![]);
        assert(joined(pieces) =~= data);
    } else {
        let tail = data.skip(CHUNK_SIZE as int);
        pieces_make_the_stream(tail);
        assert(pieces.drop_first() =~= pieces_of(tail));
        assert(joined(pieces) =~= data);
        assert forall|i: int| 0 <= i < pieces.len() implies (#[trigger] pieces[i]).len()
            <= CHUNK_SIZE by {
            if i > 0 {
                assert(pieces[i] == pieces_of(tail)[i - 1]);
            }
        }
    }
}

/// Any stream of bytes comes out of the wire as it went in.
pub proof fn any_stream_survives_the_wire(data: Seq<u8>, after: Seq<u8>)
    ensures
        decoded(wire_of(pieces_of(data)) + after) == Some(
            (data, wire_of(pieces_of(data)).len() as int),
        ),
{
    pieces_make_the_stream(data);
    stream_reads_back(pieces_of(data), after);
}

// ---------------------------------------------------------------------------
// Reading and writing the stream
// ---------------------------------------------------------------------------

/// Takes in what a read gave, towards a chunk. The chunk is complete when it is
/// full or the read gave nothing.
pub fn read_exact_or_eof(chunk: &mut Vec<u8>, got: &[u8]) -> (complete: bool)
    requires
        old(chunk)@.len() + got@.len() <= CHUNK_SIZE,
    ensures
        final(chunk)@ == old(chunk)@ + got@,
        complete == (got@.len() == 0 || final(chunk)@.len() == CHUNK_SIZE),
{
    chunk.extend_from_slice(got);
    assert(chunk@ =~= old(chunk)@ + got@);
    got.len() == 0 || chunk.len() == CHUNK_SIZE
}

/// What happens once a chunk is through.
#[derive(Clone, Copy, Debug, PartialEq, Eq, Structural)]
pub enum AfterChunk {
    /// The stream is complete.
    Done,
    /// More chunks would follow, but the transfer was called off.
    Cancelled,
    /// The next chunk follows.
    More,
}

/// What follows a chunk.
pub open spec fn following(has_more: bool, cancelled: bool) -> AfterChunk {
    if !has_more {
        AfterChunk::Done
    } else if cancelled {
        AfterChunk::Cancelled
    } else {
        AfterChunk::More
    }
}

/// What happens once a chunk is through: a stream that is complete stays so, and
/// otherwise a request to stop is heeded.
pub fn after_chunk(has_more: bool, cancelled: bool) -> (r: AfterChunk)
    ensures
        r == following(has_more, cancelled),
{
    if !has_more {
        AfterChunk::Done
    } else if cancelled {
        AfterChunk::Cancelled
    } else {
        AfterChunk::More
    }
}

/// The sending end of a stream: the piece that was read and is not yet sent, and
/// the bytes sent so far.
#[derive(Debug)]
pub struct StreamWriter {
    pub pending: Vec<u8>,
    pub bytes_sent: u64,
}

impl StreamWriter {
    /// Whether the piece fits a chunk and the count has room for it.
    pub open spec fn valid(self) -> bool {
        self.pending@.len() <= CHUNK_SIZE && self.bytes_sent + self.pending@.len() <= u64::MAX
    }

    /// A stream of which the first piece was read.
    pub fn new(first: Vec<u8>) -> (r: StreamWriter)
        requires
            first@.len() <= CHUNK_SIZE,
        ensures
            r.pending@ == first@,
            r.bytes_sent == 0,
            r.valid(),
    {
        StreamWriter { pending: first, bytes_sent: 0 }
    }

    /// The block to write for the pending piece, now that the read behind it gave
    /// `next`, and whether another block follows. An empty `next` ends the stream.
    pub fn next_block(&mut self, next: Vec<u8>) -> (r: (Vec<u8>, bool))
        requires
            old(self).valid(),
            next@.len() <= CHUNK_SIZE,
        ensures
            r.0@ == block(old(self).pending@, next@.len() > 0),
            r.1 == (next@.len() > 0),
            final(self).pending@ == next@,
            final(self).bytes_sent == old(self).bytes_sent + old(self).pending@.len(),
    {
        let actual: usize = self.pending.len();
        let has_more = next.len() > 0;
        let ghost data = self.pending@;
        let mut out = next;
        core::mem::swap(&mut self.pending, &mut out);
        out.resize(CHUNK_SIZE, 0u8);
        assert(out@ =~= padded(data));
        let frame = make_frame(actual as u32, has_more);
        out.extend_from_slice(frame.as_slice());
        assert(out@ =~= block(data, has_more));
        self.bytes_sent = self.bytes_sent + actual as u64;
        (out, has_more)
    }
}

/// Seconds that `bytes` take at `rate` bytes per second, in floating-point arithmetic.
pub open spec fn seconds_at_rate(bytes: int, rate: int) -> (int, int) {
    divided(nearest(bytes, 1), nearest(rate, 1))
}

/// Nanoseconds that `bytes` take at `rate` bytes per second.
pub open spec fn nanos_at_rate(bytes: int, rate: int) -> int {
    let (s, e) = seconds_at_rate(bytes, rate);
    rounded_times(s, e, 1_000_000_000)
}

/// Whether `r` is how long to pause after so many bytes in so many nanoseconds.
pub open spec fn pauses(bytes_sent: int, rate: int, elapsed: int, r: Option<u128>) -> bool {
    match r {
        Some(pause) => elapsed + pause == nanos_at_rate(bytes_sent, rate),
        None => elapsed > nanos_at_rate(bytes_sent, rate),
    }
}

/// How long to pause after `bytes_sent` bytes in `elapsed` nanoseconds, so as not
/// to be faster than `rate` bytes per second; nothing where the stream is behind. The
/// whole time must be one that 64 bits of seconds can hold.
pub fn throttle_pause(bytes_sent: u64, rate: u64, elapsed: u128) -> (r: Option<u128>)
    requires
        rate > 0,
        rate > 1 || bytes_sent < 0xffff_ffff_ffff_fc00,
    ensures
        pauses(bytes_sent as int, rate as int, elapsed as int, r),
{
    let expected: u128 = Double::from_u64(bytes_sent).divided_by(Double::from_u64(rate)).nanos();
    if expected >= elapsed {
        Some(expected - elapsed)
    } else {
        None
    }
}

/// After the pause the average rate is not above the limit, to a millisecond. This is
/// so for times of up to 2 to the power of 38 seconds; beyond, a floating-point number
/// has no bits for the milliseconds.
pub proof fn throttle_keeps_the_limit(bytes_sent: int, rate: int, elapsed: int, pause: int)
    requires
        rate > 0,
        0 <= bytes_sent <= rate * 274_877_906_944,
        elapsed + pause >= nanos_at_rate(bytes_sent, rate),
    ensures
        bytes_sent * 1_000_000_000 <= rate * (elapsed + pause + 1_000_000),
{
    let nanos = nanos_at_rate(bytes_sent, rate);
    if bytes_sent == 0 {
        assert(nanos == 0) by {
            assert(0 * 1_000_000_000 == 0);
        }
        assert(rate * (elapsed + pause + 1_000_000) >= 0) by (nonlinear_arith)
            requires
                rate > 0,
                elapsed + pause >= 0,
        ;
    } else {
        quotient_in_nanos_is_close(bytes_sent, rate);
        assert(rate * (elapsed + pause + 1_000_000) >= rate * (nanos + 1_000_000))
            by (nonlinear_arith)
            requires
                rate > 0,
                elapsed + pause >= nanos,
        ;
    }
}

/// The data in a chunk, and whether another chunk follows.
pub fn read_block<'a>(chunk: &'a [u8], frame: &[u8]) -> (r: (&'a [u8], bool))
    requires
        chunk@.len() == CHUNK_SIZE,
        frame@.len() == FRAME_SIZE,
        frame_size(frame@) <= CHUNK_SIZE,
    ensures
        r.0@ == chunk@.take(frame_size(frame@)),
        r.1 == frame_has_more(frame@),
{
    let (size, has_more) = parse_frame(frame);
    let data = slice_subrange(chunk, 0, size as usize);
    assert(data@ =~= chunk@.take(frame_size(frame@)));
    (data, has_more)
}

/// The count after each piece, with the total beside it.
pub open spec fn progress_of(pieces: Seq<Seq<u8>>, sent: int, total: u64) -> Seq<(u64, u64)>
    decreases pieces.len(),
{
    if pieces.len() == 0 {
        seq![]
    } else {
        seq![((sent + pieces[0].len()) as u64, total)] + progress_of(
            pieces.drop_first(),
            sent + pieces[0].len(),
            total,
        )
    }
}

fn piece(source: &[u8], from: usize) -> (r: Vec<u8>)
    requires
        from <= source@.len(),
    ensures
        r@ == pieces_of(source@.skip(from as int))[0],
        r@.len() <= CHUNK_SIZE,
        r@.len() <= source@.len() - from,
        r@.len() == 0 <==> from == source@.len(),
        pieces_of(source@.skip(from as int)).len() > 1 <==> from + r@.len() < source@.len(),
        from + r@.len() < source@.len() ==> pieces_of(source@.skip(from as int)).drop_first()
            == pieces_of(source@.skip(from + r@.len())),
{
    let left: usize = source.len() - from;
    let size: usize = if left < CHUNK_SIZE {
        left
    } else {
        CHUNK_SIZE
    };
    let slice = slice_subrange(source, from, from + size);
    let mut out: Vec<u8> = Vec::new();
    out.extend_from_slice(slice);
    proof {
        let tail = source@.skip(from as int);
        assert(out@ =~= tail.take(size as int));
        if left <= CHUNK_SIZE {
            assert(tail.take(size as int) =~= tail);
        } else {
            pieces_make_the_stream(tail.skip(CHUNK_SIZE as int));
            assert(tail.skip(CHUNK_SIZE as int) =~= source@.skip(from + size));
            assert(pieces_of(tail).drop_first() =~= pieces_of(source@.skip(from + size)));
        }
    }
    out
}

/// The wire form of a whole stream, and the progress made after each chunk as
/// `(bytes sent, total)`.
pub fn write_stream(source: &[u8], total_bytes: u64) -> (r: (Vec<u8>, Vec<(u64, u64)>))
    ensures
        r.0@ == wire_of(pieces_of(source@)),
        r.1@ == progress_of(pieces_of(source@), 0, total_bytes),
{
    let n: usize = source.len();
    let mut wire: Vec<u8> = Vec::new();
    let mut calls: Vec<(u64, u64)> = Vec::new();
    let first = piece(source, 0);
    let mut at: usize = first.len();
    let mut writer = StreamWriter::new(first);
    let ghost mut start: int = 0;
    proof {
        assert(source@.skip(0) =~= source@);
        assert(wire@ + wire_of(pieces_of(source@)) =~= wire_of(pieces_of(source@)));
        assert(calls@ + progress_of(pieces_of(source@), 0, total_bytes) =~= progress_of(
            pieces_of(source@),
            0,
            total_bytes,
        ));
    }
    loop
        invariant
            n == source@.len(),
            0 <= start <= at <= n,
            at == start + writer.pending@.len(),
            writer.pending@.len() <= CHUNK_SIZE,
            writer.bytes_sent == start,
            writer.pending@ == pieces_of(source@.skip(start))[0],
            pieces_of(source@.skip(start)).len() > 1 <==> at < n,
            at < n ==> pieces_of(source@.skip(start)).drop_first() == pieces_of(
                source@.skip(at as int),
            ),
            wire@ + wire_of(pieces_of(source@.skip(start))) == wire_of(pieces_of(source@)),
            calls@ + progress_of(pieces_of(source@.skip(start)), start, total_bytes)
                == progress_of(pieces_of(source@), 0, total_bytes),
        decreases n - start, n - at,
    {
        let next = piece(source, at);
        let size: usize = next.len();
        let ghost now = pieces_of(source@.skip(start));
        let ghost wire0 = wire@;
        let ghost calls0 = calls@;
        proof {
            pieces_make_the_stream(source@.skip(start));
        }
        let (mut out, has_more) = writer.next_block(next);
        wire.append(&mut out);
        calls.push((writer.bytes_sent, total_bytes));
        proof {
            let sent = start + now[0].len();
            assert(wire_of(now) == block(now[0], now.len() > 1) + wire_of(now.drop_first()));
            assert(wire0 + wire_of(now) =~= wire@ + wire_of(now.drop_first()));
            assert(calls0 + progress_of(now, start, total_bytes) =~= calls@ + progress_of(
                now.drop_first(),
                sent,
                total_bytes,
            ));
            if !has_more {
                assert(now.drop_first().len() == 0);
                assert(wire@ + wire_of(now.drop_first()) =~= wire@);
                assert(calls@ + progress_of(now.drop_first(), sent, total_bytes) =~= calls@);
            }
            start = at as int;
        }
        if !has_more {
            return (wire, calls);
        }
        at = at + size;
    }
}

/// Whether no frame that a reader meets gives a size beyond its chunk.
pub open spec fn frames_fit(wire: Seq<u8>) -> bool
    decreases wire.len(),
{
    if wire.len() < CHUNK_SIZE + FRAME_SIZE {
        true
    } else {
        let frame = wire.subrange(CHUNK_SIZE as int, CHUNK_SIZE + FRAME_SIZE);
        frame_size(frame) <= CHUNK_SIZE && (frame_has_more(frame) ==> frames_fit(
            wire.skip(CHUNK_SIZE + FRAME_SIZE),
        ))
    }
}

/// No frame of a wire that was written gives a size beyond its chunk, whatever follows
/// on the wire.
pub proof fn written_frames_fit(pieces: Seq<Seq<u8>>, after: Seq<u8>)
    requires
        pieces.len() > 0,
        forall|i: int| 0 <= i < pieces.len() ==> (#[trigger] pieces[i]).len() <= CHUNK_SIZE,
    ensures
        frames_fit(wire_of(pieces) + after),
    decreases pieces.len(),
{
    let data = pieces[0];
    let rest = pieces.drop_first();
    let wire = wire_of(pieces) + after;
    frame_reads_back(data.len() as int, pieces.len() > 1);
    assert(wire =~= block(data, pieces.len() > 1) + (wire_of(rest) + after));
    assert(wire.subrange(CHUNK_SIZE as int, CHUNK_SIZE + FRAME_SIZE) =~= frame_bytes(
        data.len() as int,
        pieces.len() > 1,
    ));
    assert(wire.skip(CHUNK_SIZE + FRAME_SIZE) =~= wire_of(rest) + after);
    if rest.len() > 0 {
        assert forall|i: int| 0 <= i < rest.len() implies (#[trigger] rest[i]).len()
            <= CHUNK_SIZE by {
            assert(rest[i] == pieces[i + 1]);
        }
        written_frames_fit(rest, after);
    }
}

/// What [`write_stream`] writes can be read: its frames fit, and the data comes back.
pub proof fn written_streams_can_be_read(data: Seq<u8>)
    ensures
        frames_fit(wire_of(pieces_of(data))),
        decoded(wire_of(pieces_of(data))) is Some,
        decoded_data(wire_of(pieces_of(data))) == data,
{
    let wire = wire_of(pieces_of(data));
    pieces_make_the_stream(data);
    written_frames_fit(pieces_of(data), seq![]);
    any_stream_survives_the_wire(data, seq![]);
    assert(wire + seq![] =~= wire);
}

/// The data on a wire; an error where the wire ends before the stream does.
pub fn read_stream(source: &[u8]) -> (r: Result<Vec<u8>, CodecError>)
    requires
        frames_fit(source@),
    ensures
        match r {
            Ok(data) => decoded(source@) is Some && decoded_data(source@) == data@,
            Err(CodecError::Io(e)) => decoded(source@) is None && e@ == "early eof"@,
            Err(_) => false,
        },
{
    match read_stream_with_cancel(source, false) {
        Ok((data, _)) => Ok(data),
        Err(e) => Err(e),
    }
}

/// Like [`read_stream`], but where `cancel` is set it stops behind the first chunk
/// unless that is the last; the flag says whether it did.
pub fn read_stream_with_cancel(source: &[u8], cancel: bool) -> (r: Result<
    (Vec<u8>, bool),
    CodecError,
>)
    requires
        frames_fit(source@),
    ensures
        match r {
            Ok((data, stopped)) => {
                if cancel {
                    let frame = source@.subrange(CHUNK_SIZE as int, CHUNK_SIZE + FRAME_SIZE);
                    &&& source@.len() >= CHUNK_SIZE + FRAME_SIZE
                    &&& data@ == source@.take(frame_size(frame))
                    &&& stopped == frame_has_more(frame)
                } else {
                    &&& decoded(source@) is Some
                    &&& decoded_data(source@) == data@
                    &&& !stopped
                }
            },
            Err(CodecError::Io(e)) => e@ == "early eof"@ && if cancel {
                source@.len() < CHUNK_SIZE + FRAME_SIZE
            } else {
                decoded(source@) is None
            },
            Err(_) => false,
        },
{
    let n: usize = source.len();
    let mut data: Vec<u8> = Vec::new();
    let mut at: usize = 0;
    proof {
        assert(source@.skip(0) =~= source@);
        if decoded(source@) is Some {
            assert(data@ + decoded_data(source@) =~= decoded_data(source@));
        }
    }
    while CHUNK_SIZE + FRAME_SIZE <= n - at
        invariant
            n == source@.len(),
            at <= n,
            frames_fit(source@.skip(at as int)),
            cancel ==> at == 0,
            at == 0 ==> data@.len() == 0,
            decoded(source@) is Some <==> decoded(source@.skip(at as int)) is Some,
            decoded(source@) is Some ==> decoded_data(source@) == data@ + decoded_data(
                source@.skip(at as int),
            ),
        decreases n - at,
    {
        let ghost tail = source@.skip(at as int);
        let chunk = slice_subrange(source, at, at + CHUNK_SIZE);
        let frame = slice_subrange(source, at + CHUNK_SIZE, at + CHUNK_SIZE + FRAME_SIZE);
        let ghost data0 = data@;
        proof {
            assert(frame@ =~= tail.subrange(CHUNK_SIZE as int, CHUNK_SIZE + FRAME_SIZE));
            assert(source@.skip(at + CHUNK_SIZE + FRAME_SIZE) =~= tail.skip(
                CHUNK_SIZE + FRAME_SIZE,
            ));
        }
        let (part, has_more) = read_block(chunk, frame);
        data.extend_from_slice(part);
        proof {
            assert(part@ =~= tail.take(frame_size(frame@)));
            assert(data@ =~= data0 + part@);
            if at == 0 {
                assert(data@ =~= part@);
                assert(tail =~= source@);
            }
        }
        match after_chunk(has_more, cancel) {
            AfterChunk::Done => {
                return Ok((data, false));
            },
            AfterChunk::Cancelled => {
                return Ok((data, true));
            },
            AfterChunk::More => {
                proof {
                    if decoded(tail) is Some {
                        let rest = decoded_data(source@.skip(at + CHUNK_SIZE + FRAME_SIZE));
                        assert(data0 + (part@ + rest) =~= data@ + rest);
                    }
                }
                at = at + CHUNK_SIZE + FRAME_SIZE;
            },
        }
    }
    Err(CodecError::Io("early eof".to_owned()))
}

} // verus!
