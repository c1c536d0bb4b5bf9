//! What holds of a serial link as a whole: what a writer frames, a reader takes out again.

use crate::serial;
use crate::serial::{CheckedFrame, FrameState, Progress, ReaderView};
use crate::serial::{
    CRC_LEN, FRAME_BUFFER_LEN, FRAME_HEADER_LEN, FRAME_START, MAX_PAYLOAD_LEN, USB_BUFFER_LEN,
};
use crate::tinybuf;
use vstd::prelude::*;

verus! {

/// A frame on the wire: its payload and the content of its checksum field.
pub struct WireFrame {
    pub payload: Seq<u8>,
    pub crc: u16,
}

impl WireFrame {
    /// The bytes of the frame.
    pub open spec fn bytes(self) -> Seq<u8> {
        serial::framed(self.payload, self.crc)
    }

    /// The bytes behind the header.
    pub open spec fn body(self) -> Seq<u8> {
        self.payload + serial::le_bytes(self.crc)
    }

    /// What a reader should find: the payload, valid when the field holds its checksum.
    pub open spec fn expected(self, crc: spec_fn(Seq<u8>) -> u16) -> CheckedFrame {
        CheckedFrame { payload: self.payload, valid: crc(self.payload) == self.crc }
    }
}

/// The bytes of frames sent one after the other.
pub open spec fn stream(frames: Seq<WireFrame>) -> Seq<u8>
    decreases frames.len(),
{
    if frames.len() == 0 {
        Seq::empty()
    } else {
        frames[0].bytes() + stream(frames.drop_first())
    }
}

/// No payload is longer than the longest allowed.
pub open spec fn sendable(frames: Seq<WireFrame>) -> bool {
    forall|i: int| 0 <= i < frames.len() ==> (#[trigger] frames[i]).payload.len() <= MAX_PAYLOAD_LEN
}

/// The checks that a reader should make of these frames.
pub open spec fn expected(
    frames: Seq<WireFrame>,
    crc: spec_fn(Seq<u8>) -> u16,
) -> Seq<CheckedFrame> {
    frames.map_values(|frame: WireFrame| frame.expected(crc))
}

/// The reader has lost nothing of a stream: what it has buffered, followed by `rest`, is exactly
/// what is left of the frames `pending`. Inside a frame the header is already consumed.
pub open spec fn awaits(reader: ReaderView, rest: Seq<u8>, pending: Seq<WireFrame>) -> bool {
    match reader.state {
        FrameState::Wait => {
            &&& reader.buffer + rest == stream(pending)
            &&& reader.buffer.len() < USB_BUFFER_LEN
        },
        FrameState::Frame(n) => {
            &&& pending.len() > 0
            &&& n == pending[0].payload.len()
            &&& reader.buffer.len() < n + CRC_LEN
            &&& reader.buffer + rest == pending[0].body() + stream(pending.drop_first())
        },
    }
}

/// The two bytes of a number stand for that number.
proof fn lemma_le_round_trip(x: u16)
    ensures
        serial::le_value(serial::le_bytes(x)[0], serial::le_bytes(x)[1]) == x,
{
}

/// The parts of a frame.
proof fn lemma_framed(frame: WireFrame)
    requires
        frame.payload.len() <= MAX_PAYLOAD_LEN,
    ensures
        frame.bytes().len() == FRAME_HEADER_LEN + frame.payload.len() + CRC_LEN,
        frame.bytes().take(4) == FRAME_START@,
        serial::le_value(frame.bytes()[4], frame.bytes()[5]) == frame.payload.len(),
        frame.bytes().skip(FRAME_HEADER_LEN as int) == frame.body(),
        frame.body().take(frame.payload.len() as int) == frame.payload,
        serial::le_value(
            frame.body()[frame.payload.len() as int],
            frame.body()[frame.payload.len() as int + 1],
        ) == frame.crc,
{
    lemma_le_round_trip(frame.payload.len() as u16);
    lemma_le_round_trip(frame.crc);
    assert(frame.bytes().take(4) =~= FRAME_START@);
    assert(frame.bytes().skip(FRAME_HEADER_LEN as int) =~= frame.body());
    assert(frame.body().take(frame.payload.len() as int) =~= frame.payload);
}

/// Bytes that open with the start marker have it at position 0.
proof fn lemma_opens(buffer: Seq<u8>)
    requires
        buffer.len() >= 4,
        buffer.take(4) == FRAME_START@,
    ensures
        tinybuf::first_position(buffer, FRAME_START@) == Some(0nat),
        buffer.skip(0) == buffer,
{
    assert(buffer.subrange(0, 4) =~= buffer.take(4));
    assert(tinybuf::occurs_at(buffer, FRAME_START@, 0));
    tinybuf::lemma_first_position(buffer, FRAME_START@, 0);
    assert(buffer.skip(0) =~= buffer);
}

/// The check of a body at the front of a buffer.
proof fn lemma_checked(buffer: Seq<u8>, frame: WireFrame, crc: spec_fn(Seq<u8>) -> u16)
    requires
        frame.payload.len() <= MAX_PAYLOAD_LEN,
        buffer.len() >= frame.body().len(),
        buffer.take(frame.body().len() as int) == frame.body(),
    ensures
        serial::checked(buffer, frame.payload.len(), crc) == frame.expected(crc),
{
    lemma_framed(frame);
    let n = frame.payload.len() as int;
    assert(buffer.take(n) =~= buffer.take(n + 2).take(n));
    assert(buffer[n] == buffer.take(n + 2)[n]);
    assert(buffer[n + 1] == buffer.take(n + 2)[n + 1]);
}

/// A scan over the front of a stream, up to the end of the buffer.
#[verifier::spinoff_prover]
#[verifier::rlimit(60)]
proof fn lemma_scan_stream(
    buffer: Seq<u8>,
    rest: Seq<u8>,
    pending: Seq<WireFrame>,
    crc: spec_fn(Seq<u8>) -> u16,
)
    requires
        buffer + rest == stream(pending),
        sendable(pending),
    ensures
        ({
            let progress = serial::scanned(buffer, crc);
            let count = progress.frames.len() as int;
            &&& count <= pending.len()
            &&& progress.frames == expected(pending, crc).take(count)
            &&& awaits(progress.reader, rest, pending.skip(count))
            &&& rest.len() == 0 ==> count == pending.len()
        }),
    decreases pending.len(),
{
    let progress = serial::scanned(buffer, crc);
    if pending.len() == 0 {
        assert(buffer.len() == 0) by {
            assert((buffer + rest).len() == 0);
        }
        tinybuf::lemma_no_position(buffer, FRAME_START@);
        assert(progress.frames =~= expected(pending, crc).take(0));
        assert(pending.skip(0) =~= pending);
    } else {
        let frame = pending[0];
        let tail = pending.drop_first();
        lemma_framed(frame);
        let size = frame.bytes().len() as int;
        let n = frame.payload.len();
        assert(frame.body().len() == n + 2);
        if buffer.len() >= size {
            assert(buffer.take(size) =~= frame.bytes()) by {
                assert(buffer.take(size) =~= (buffer + rest).take(size));
                assert((frame.bytes() + stream(tail)).take(size) =~= frame.bytes());
            }
            let next = buffer.skip(size);
            assert(next + rest =~= stream(tail)) by {
                assert(next + rest =~= (buffer + rest).skip(size));
                assert((frame.bytes() + stream(tail)).skip(size) =~= stream(tail));
            }
            assert(buffer.take(4) =~= buffer.take(size).take(4));
            lemma_opens(buffer);
            assert(buffer[4] == buffer.take(size)[4]);
            assert(buffer[5] == buffer.take(size)[5]);
            let body = buffer.skip(6);
            assert(body.take(n as int + 2) =~= buffer.take(size).skip(6));
            lemma_checked(body, frame, crc);
            assert(body.skip(n as int + 2) =~= next);
            assert(sendable(tail)) by {
                assert forall|i: int| 0 <= i < tail.len() implies (
                #[trigger] tail[i]).payload.len() <= MAX_PAYLOAD_LEN by {
                    assert(tail[i] == pending[i + 1]);
                }
            }
            lemma_scan_stream(next, rest, tail, crc);
            let inner = serial::scanned(next, crc);
            let count = inner.frames.len() as int;
            assert(progress.frames =~= expected(pending, crc).take(count + 1)) by {
                assert forall|i: int| 0 <= i < count + 1 implies progress.frames[i] == expected(
                    pending,
                    crc,
                )[i] by {
                    if i > 0 {
                        assert(progress.frames[i] == inner.frames[i - 1]);
                        assert(inner.frames[i - 1] == expected(tail, crc).take(count)[i - 1]);
                        assert(tail[i - 1] == pending[i]);
                    }
                }
            }
            assert(pending.skip(count + 1) =~= tail.skip(count));
        } else {
            lemma_partial(buffer, rest, pending, crc);
            assert(progress.frames =~= expected(pending, crc).take(0));
            assert(pending.skip(0) =~= pending);
        }
    }
}

/// A scan over a buffer that breaks off inside the first pending frame.
#[verifier::spinoff_prover]
#[verifier::rlimit(60)]
proof fn lemma_partial(
    buffer: Seq<u8>,
    rest: Seq<u8>,
    pending: Seq<WireFrame>,
    crc: spec_fn(Seq<u8>) -> u16,
)
    requires
        pending.len() > 0,
        buffer + rest == stream(pending),
        sendable(pending),
        buffer.len() < pending[0].bytes().len(),
    ensures
        ({
            let progress = serial::scanned(buffer, crc);
            &&& progress.frames.len() == 0
            &&& awaits(progress.reader, rest, pending)
            &&& rest.len() > 0
        }),
{
    let frame = pending[0];
    let tail = pending.drop_first();
    lemma_framed(frame);
    let len = buffer.len() as int;
    let n = frame.payload.len();
    assert(frame.body().len() == n + 2);
    assert(stream(pending) =~= frame.bytes() + stream(tail));
    assert(rest.len() > 0) by {
        assert((buffer + rest).len() == frame.bytes().len() + stream(tail).len());
    }
    assert(buffer =~= frame.bytes().take(len)) by {
        assert(buffer =~= (buffer + rest).take(len));
        assert((frame.bytes() + stream(tail)).take(len) =~= frame.bytes().take(len));
    }
    if len < 4 {
        tinybuf::lemma_no_position(buffer, FRAME_START@);
    } else {
        assert(buffer.take(4) =~= frame.bytes().take(4));
        lemma_opens(buffer);
        if len >= 6 {
            let part = buffer.skip(6);
            assert(buffer[4] == frame.bytes()[4] && buffer[5] == frame.bytes()[5]);
            assert(part + rest =~= frame.body() + stream(tail)) by {
                assert(part + rest =~= (buffer + rest).skip(6));
                assert((frame.bytes() + stream(tail)).skip(6) =~= frame.bytes().skip(6) + stream(
                    tail,
                ));
            }
        }
    }
}

/// One read of a stream loses nothing. A reader that stands in a stream of frames and takes in the
/// next bytes of it checks some of the pending frames, the first ones, in order, each with its
/// own payload; afterwards it stands in the stream behind them. Nothing is left waiting at the
/// end of the stream, unless the read began inside a frame and another followed.
pub proof fn law_read_loses_nothing(
    reader: ReaderView,
    data: Seq<u8>,
    rest: Seq<u8>,
    pending: Seq<WireFrame>,
    crc: spec_fn(Seq<u8>) -> u16,
)
    requires
        awaits(reader, data + rest, pending),
        sendable(pending),
        data.len() <= USB_BUFFER_LEN,
    ensures
        ({
            let progress = serial::received(reader, data, crc);
            let count = progress.frames.len() as int;
            &&& count <= pending.len()
            &&& progress.frames == expected(pending, crc).take(count)
            &&& awaits(progress.reader, rest, pending.skip(count))
            &&& rest.len() == 0 && (reader.state is Wait || pending.len() == 1) ==> count
                == pending.len()
        }),
{
    let buffer = reader.buffer + data;
    let progress = serial::received(reader, data, crc);
    assert(reader.buffer + (data + rest) =~= buffer + rest);
    assert(tinybuf::pushed(reader.buffer, data, FRAME_BUFFER_LEN as nat) =~= buffer);
    match reader.state {
        FrameState::Wait => {
            lemma_scan_stream(buffer, rest, pending, crc);
        },
        FrameState::Frame(n) => {
            let frame = pending[0];
            let tail = pending.drop_first();
            lemma_framed(frame);
            let size = n as int + 2;
            assert(frame.body().len() == size);
            if buffer.len() < size {
                assert(progress.frames =~= expected(pending, crc).take(0));
                assert(pending.skip(0) =~= pending);
                assert((buffer + rest).len() == size + stream(tail).len());
            } else {
                assert(buffer.take(size) =~= frame.body()) by {
                    assert(buffer.take(size) =~= (buffer + rest).take(size));
                    assert((frame.body() + stream(tail)).take(size) =~= frame.body());
                }
                lemma_checked(buffer, frame, crc);
                let next = buffer.skip(size);
                assert(next + rest =~= stream(tail)) by {
                    assert(next + rest =~= (buffer + rest).skip(size));
                    assert((frame.body() + stream(tail)).skip(size) =~= stream(tail));
                }
                assert(progress.frames =~= expected(pending, crc).take(1));
                assert(pending.skip(1) =~= tail);
            }
        },
    }
}

/// The bytes of reads taken one after the other.
pub open spec fn joined(reads: Seq<Seq<u8>>) -> Seq<u8>
    decreases reads.len(),
{
    if reads.len() == 0 {
        Seq::empty()
    } else {
        reads[0] + joined(reads.drop_first())
    }
}

/// What a reader does with a number of reads.
pub open spec fn received_all(
    reader: ReaderView,
    reads: Seq<Seq<u8>>,
    crc: spec_fn(Seq<u8>) -> u16,
) -> Progress
    decreases reads.len(),
{
    if reads.len() == 0 {
        Progress { reader, frames: Seq::empty() }
    } else {
        let first = serial::received(reader, reads[0], crc);
        let others = received_all(first.reader, reads.drop_first(), crc);
        Progress { reader: others.reader, frames: first.frames + others.frames }
    }
}

/// The reads fit the serial port.
pub open spec fn port_reads(reads: Seq<Seq<u8>>) -> bool {
    forall|i: int| 0 <= i < reads.len() ==> (#[trigger] reads[i]).len() <= USB_BUFFER_LEN
}

/// However a stream is cut into reads, the reader checks its first frames, in order and each with
/// its own payload, and stands in the stream behind them.
pub proof fn law_reads_lose_nothing(
    reader: ReaderView,
    reads: Seq<Seq<u8>>,
    rest: Seq<u8>,
    pending: Seq<WireFrame>,
    crc: spec_fn(Seq<u8>) -> u16,
)
    requires
        awaits(reader, joined(reads) + rest, pending),
        sendable(pending),
        port_reads(reads),
    ensures
        ({
            let progress = received_all(reader, reads, crc);
            let count = progress.frames.len() as int;
            &&& count <= pending.len()
            &&& progress.frames == expected(pending, crc).take(count)
            &&& awaits(progress.reader, rest, pending.skip(count))
        }),
    decreases reads.len(),
{
    if reads.len() == 0 {
        assert(joined(reads) + rest =~= rest);
        assert(received_all(reader, reads, crc).frames =~= expected(pending, crc).take(0));
        assert(pending.skip(0) =~= pending);
    } else {
        let others = reads.drop_first();
        assert(joined(reads) + rest =~= reads[0] + (joined(others) + rest));
        law_read_loses_nothing(reader, reads[0], joined(others) + rest, pending, crc);
        let first = serial::received(reader, reads[0], crc);
        let done = first.frames.len() as int;
        let left = pending.skip(done);
        lemma_skip_sendable(pending, done);
        law_reads_lose_nothing(first.reader, others, rest, left, crc);
        let more = received_all(first.reader, others, crc);
        let count = more.frames.len() as int;
        lemma_expected_joins(pending, done, count, crc);
        assert(left.skip(count) =~= pending.skip(done + count));
    }
}

/// At the end of a stream a reader waits for a new frame, and what it has buffered is whole frames
/// that it has not looked at yet.
pub proof fn law_end_of_stream(reader: ReaderView, pending: Seq<WireFrame>)
    requires
        awaits(reader, Seq::empty(), pending),
        sendable(pending),
    ensures
        reader.state is Wait,
        reader.buffer == stream(pending),
{
    assert(reader.buffer + Seq::<u8>::empty() =~= reader.buffer);
    if let FrameState::Frame(n) = reader.state {
        lemma_framed(pending[0]);
        assert(reader.buffer.len() == pending[0].body().len() + stream(pending.drop_first()).len());
    }
}

/// One more read at the end of a stream, even an empty one, delivers everything that is left and
/// leaves the reader as new.
pub proof fn law_last_frames_come_with_the_next_read(
    reader: ReaderView,
    pending: Seq<WireFrame>,
    crc: spec_fn(Seq<u8>) -> u16,
)
    requires
        awaits(reader, Seq::empty(), pending),
        sendable(pending),
    ensures
        serial::received(reader, Seq::empty(), crc).frames == expected(pending, crc),
        serial::received(reader, Seq::empty(), crc).reader == (ReaderView {
            state: FrameState::Wait,
            buffer: Seq::empty(),
        }),
{
    let none = Seq::<u8>::empty();
    law_end_of_stream(reader, pending);
    assert(reader.buffer + none =~= reader.buffer);
    assert(none + none =~= none);
    law_read_loses_nothing(reader, none, none, pending, crc);
    let progress = serial::received(reader, none, crc);
    assert(expected(pending, crc).take(pending.len() as int) =~= expected(pending, crc));
    let left = pending.skip(pending.len() as int);
    assert(left.len() == 0);
    law_end_of_stream(progress.reader, left);
    assert(progress.reader.buffer =~= none);
}

/// A single pending frame is checked by the time its last byte is in.
proof fn lemma_single_frame(
    reader: ReaderView,
    reads: Seq<Seq<u8>>,
    frame: WireFrame,
    crc: spec_fn(Seq<u8>) -> u16,
)
    requires
        reads.len() > 0,
        frame.payload.len() <= MAX_PAYLOAD_LEN,
        awaits(reader, joined(reads), seq![frame]),
        port_reads(reads),
    ensures
        received_all(reader, reads, crc).frames.len() == 1,
    decreases reads.len(),
{
    let none = Seq::<u8>::empty();
    let pending = seq![frame];
    let others = reads.drop_first();
    let first = serial::received(reader, reads[0], crc);
    assert(joined(reads) + none =~= joined(reads));
    law_reads_lose_nothing(reader, reads, none, pending, crc);
    law_read_loses_nothing(reader, reads[0], joined(others), pending, crc);
    if first.frames.len() == 0 {
        assert(pending.skip(0) =~= pending);
        if others.len() > 0 {
            lemma_single_frame(first.reader, others, frame, crc);
        }
    }
}

/// What a writer frames, a reader takes out: a new reader that takes in the frame of a payload, cut
/// into reads in any way, delivers exactly that payload, as valid, and is then as new.
pub proof fn law_round_trip(payload: Seq<u8>, reads: Seq<Seq<u8>>, crc: spec_fn(Seq<u8>) -> u16)
    requires
        payload.len() <= MAX_PAYLOAD_LEN,
        joined(reads) == serial::framed(payload, crc(payload)),
        port_reads(reads),
    ensures
        ({
            let fresh = ReaderView { state: FrameState::Wait, buffer: Seq::empty() };
            let progress = received_all(fresh, reads, crc);
            &&& progress.frames == seq![CheckedFrame { payload, valid: true }]
            &&& progress.reader == fresh
        }),
{
    let none = Seq::<u8>::empty();
    let fresh = ReaderView { state: FrameState::Wait, buffer: none };
    let frame = WireFrame { payload, crc: crc(payload) };
    let pending = seq![frame];
    assert(pending.drop_first().len() == 0);
    assert(stream(pending) =~= frame.bytes()) by {
        assert(stream(pending.drop_first()) =~= none);
    }
    assert(none + joined(reads) =~= joined(reads));
    assert(joined(reads) + none =~= joined(reads));
    lemma_framed(frame);
    lemma_single_frame(fresh, reads, frame, crc);
    law_reads_lose_nothing(fresh, reads, none, pending, crc);
    let progress = received_all(fresh, reads, crc);
    assert(progress.frames =~= seq![CheckedFrame { payload, valid: true }]);
    law_end_of_stream(progress.reader, pending.skip(1));
    assert(progress.reader.buffer =~= none);
}

/// Bytes in front of a start marker do not matter: a scan skips them.
#[verifier::spinoff_prover]
#[verifier::rlimit(60)]
pub proof fn law_noise_is_skipped(
    noise: Seq<u8>,
    rest: Seq<u8>,
    crc: spec_fn(Seq<u8>) -> u16,
)
    requires
        tinybuf::first_position(noise + rest, FRAME_START@) == Some(noise.len()),
    ensures
        serial::scanned(noise + rest, crc) == serial::scanned(rest, crc),
{
    let buffer = noise + rest;
    let i = noise.len() as int;
    tinybuf::lemma_no_position(buffer, FRAME_START@);
    let at = choose|at: int| tinybuf::first_at(buffer, FRAME_START@, at);
    assert(tinybuf::first_at(buffer, FRAME_START@, at));
    assert(buffer.subrange(i, i + 4) =~= rest.take(4));
    assert(buffer.skip(i) =~= rest);
    lemma_opens(rest);
}

/// What a push leaves in a buffer is the end of everything that was taken in, when what was in it
/// before is.
pub proof fn lemma_pushed_is_the_end(past: Seq<u8>, held: Seq<u8>, data: Seq<u8>)
    requires
        held.is_suffix_of(past),
        held.len() <= FRAME_BUFFER_LEN,
        data.len() <= USB_BUFFER_LEN,
    ensures
        ({
            let buffer = tinybuf::pushed(held, data, FRAME_BUFFER_LEN as nat);
            let now = past + data;
            let start = now.len() - buffer.len();
            &&& buffer.len() <= FRAME_BUFFER_LEN
            &&& 0 <= start
            &&& now.skip(start) == buffer
            &&& buffer.is_suffix_of(now)
            &&& buffer.len() >= tinybuf::min_nat(held.len(), 3) + data.len()
        }),
{
    let capacity = FRAME_BUFFER_LEN as nat;
    let buffer = tinybuf::pushed(held, data, capacity);
    let now = past + data;
    let before = past.len() - held.len();
    let gone = tinybuf::evicted(held.len(), data.len(), capacity) as int;
    let start = before + gone;
    assert(past.subrange(before, past.len() as int) == held);
    assert forall|j: int| 0 <= j < buffer.len() implies buffer[j] == now[start + j] by {
        if gone + j < held.len() {
            assert(held[gone + j] == past.subrange(before, past.len() as int)[gone + j]);
        }
    }
    assert(now.skip(start) =~= buffer);
    assert(now.subrange(start, now.len() as int) =~= buffer);
}

/// A marker in the part of `all` from `start` on stands in `all`.
proof fn lemma_marker_in_part(all: Seq<u8>, part: Seq<u8>, start: int, i: int)
    requires
        0 <= start,
        start + part.len() <= all.len(),
        all.subrange(start, start + part.len()) == part,
        tinybuf::occurs_at(part, FRAME_START@, i),
    ensures
        tinybuf::occurs_at(all, FRAME_START@, start + i),
{
    assert(all.subrange(start + i, start + i + 4) =~= part.subrange(i, i + 4)) by {
        assert(part =~= all.subrange(start, start + part.len()));
    }
}

/// The end of noise that reaches as far as its first marker has it where the noise ends.
proof fn lemma_marker_behind_noise(all: Seq<u8>, part: Seq<u8>, start: int, end: int)
    requires
        tinybuf::first_at(all, FRAME_START@, end),
        0 <= start <= end,
        end + 4 <= start + part.len() <= all.len(),
        all.subrange(start, start + part.len()) == part,
    ensures
        tinybuf::first_position(part, FRAME_START@) == Some((end - start) as nat),
{
    let at = end - start;
    assert(part.subrange(at, at + 4) =~= all.subrange(end, end + 4)) by {
        assert(part =~= all.subrange(start, start + part.len()));
    }
    assert forall|j: int| 0 <= j < at implies !tinybuf::occurs_at(part, FRAME_START@, j) by {
        if tinybuf::occurs_at(part, FRAME_START@, j) {
            lemma_marker_in_part(all, part, start, j);
        }
    }
    assert(tinybuf::first_at(part, FRAME_START@, at));
    tinybuf::lemma_first_position(part, FRAME_START@, at);
}

/// Noise that does not reach as far as its first marker holds none.
proof fn lemma_no_marker_in_noise(all: Seq<u8>, part: Seq<u8>, start: int, end: int)
    requires
        tinybuf::first_at(all, FRAME_START@, end),
        0 <= start,
        start + part.len() < end + 4,
        start + part.len() <= all.len(),
        all.subrange(start, start + part.len()) == part,
    ensures
        tinybuf::first_position(part, FRAME_START@) is None,
{
    tinybuf::lemma_no_position(part, FRAME_START@);
    assert forall|i: int| !tinybuf::occurs_at(part, FRAME_START@, i) by {
        if tinybuf::occurs_at(part, FRAME_START@, i) {
            lemma_marker_in_part(all, part, start, i);
        }
    }
}

/// The read that brings the first marker of a stream with noise in front of it, and all reads
/// behind it.
proof fn lemma_out_of_noise(
    reader: ReaderView,
    reads: Seq<Seq<u8>>,
    near: Seq<u8>,
    opened: Seq<u8>,
    pending: Seq<WireFrame>,
    crc: spec_fn(Seq<u8>) -> u16,
)
    requires
        reads.len() > 0,
        port_reads(reads),
        pending.len() > 0,
        sendable(pending),
        reader.state is Wait,
        tinybuf::pushed(reader.buffer, reads[0], FRAME_BUFFER_LEN as nat) == near + opened,
        tinybuf::first_position(near + opened, FRAME_START@) == Some(near.len()),
        opened + joined(reads.drop_first()) == stream(pending),
    ensures
        ({
            let progress = received_all(reader, reads, crc);
            let count = progress.frames.len() as int;
            &&& count <= pending.len()
            &&& progress.frames == expected(pending, crc).take(count)
            &&& awaits(progress.reader, Seq::empty(), pending.skip(count))
            &&& pending.len() == 1 ==> count == 1
        }),
{
    let none = Seq::<u8>::empty();
    let others = reads.drop_first();
    let rest = joined(others);
    let first = serial::received(reader, reads[0], crc);
    law_noise_is_skipped(near, opened, crc);
    lemma_scan_stream(opened, rest, pending, crc);
    let done = first.frames.len() as int;
    let left = pending.skip(done);
    lemma_skip_sendable(pending, done);
    assert(rest + none =~= rest);
    law_reads_lose_nothing(first.reader, others, none, left, crc);
    let count = received_all(first.reader, others, crc).frames.len() as int;
    lemma_expected_joins(pending, done, count, crc);
    assert(left.skip(count) =~= pending.skip(done + count));
    if pending.len() == 1 && done == 0 {
        assert(left =~= seq![pending[0]]);
        lemma_single_frame(first.reader, others, pending[0], crc);
    }
}

/// A reader in front of the first frame of a stream, with noise in front of that frame: `past` is
/// what it has taken in so far, and the end of it is still buffered.
#[verifier::spinoff_prover]
#[verifier::rlimit(60)]
proof fn lemma_behind_noise(
    past: Seq<u8>,
    reader: ReaderView,
    reads: Seq<Seq<u8>>,
    noise: Seq<u8>,
    pending: Seq<WireFrame>,
    crc: spec_fn(Seq<u8>) -> u16,
)
    requires
        pending.len() > 0,
        sendable(pending),
        port_reads(reads),
        past + joined(reads) == noise + stream(pending),
        tinybuf::first_at(noise + stream(pending), FRAME_START@, noise.len() as int),
        past.len() < noise.len() + 4,
        reader.state is Wait,
        reader.buffer.is_suffix_of(past),
        tinybuf::min_nat(past.len(), 3) <= reader.buffer.len() <= FRAME_BUFFER_LEN,
    ensures
        ({
            let progress = received_all(reader, reads, crc);
            let count = progress.frames.len() as int;
            &&& count <= pending.len()
            &&& progress.frames == expected(pending, crc).take(count)
            &&& awaits(progress.reader, Seq::empty(), pending.skip(count))
            &&& pending.len() == 1 ==> count == 1
        }),
    decreases reads.len(),
{
    let all = noise + stream(pending);
    if reads.len() == 0 {
        assert(past =~= past + joined(reads));
        assert(past.len() >= noise.len() + 4);
    } else {
        let data = reads[0];
        let others = reads.drop_first();
        let now = past + data;
        let buffer = tinybuf::pushed(reader.buffer, data, FRAME_BUFFER_LEN as nat);
        let start = now.len() - buffer.len();
        let end = noise.len() as int;
        lemma_pushed_is_the_end(past, reader.buffer, data);
        assert(now + joined(others) =~= all);
        assert(all.subrange(start, start + buffer.len()) =~= buffer) by {
            assert(all.subrange(start, start + buffer.len()) =~= now.skip(start));
        }
        if now.len() < end + 4 {
            lemma_no_marker_in_noise(all, buffer, start, end);
            let first = serial::received(reader, data, crc);
            assert(first == serial::paused(FrameState::Wait, buffer));
            lemma_behind_noise(now, first.reader, others, noise, pending, crc);
            let more = received_all(first.reader, others, crc);
            assert(received_all(reader, reads, crc).frames =~= more.frames);
        } else {
            lemma_marker_behind_noise(all, buffer, start, end);
            let near = noise.skip(start);
            let opened = now.skip(end);
            assert(buffer =~= near + opened) by {
                assert(now.skip(start) =~= noise.skip(start) + now.skip(end)) by {
                    assert(now =~= all.take(now.len() as int));
                }
            }
            assert(opened + joined(others) =~= stream(pending)) by {
                assert(opened + joined(others) =~= all.skip(end));
                assert(all.skip(end) =~= stream(pending));
            }
            lemma_out_of_noise(reader, reads, near, opened, pending, crc);
        }
    }
}

/// A first position is an occurrence, and there is none in front of it.
proof fn lemma_first_marker(bytes: Seq<u8>, at: int)
    requires
        tinybuf::first_position(bytes, FRAME_START@) == Some(at as nat),
        0 <= at,
    ensures
        tinybuf::first_at(bytes, FRAME_START@, at),
{
    let found = choose|found: int| tinybuf::first_at(bytes, FRAME_START@, found);
    assert(tinybuf::first_at(bytes, FRAME_START@, found));
}

/// Frames that can be sent can be sent without the first ones.
proof fn lemma_skip_sendable(frames: Seq<WireFrame>, count: int)
    requires
        0 <= count <= frames.len(),
        sendable(frames),
    ensures
        sendable(frames.skip(count)),
{
    let left = frames.skip(count);
    assert forall|i: int| 0 <= i < left.len() implies (#[trigger] left[i]).payload.len()
        <= MAX_PAYLOAD_LEN by {
        assert(left[i] == frames[i + count]);
    }
}

/// The expected checks of the first frames, in two parts.
proof fn lemma_expected_joins(
    frames: Seq<WireFrame>,
    a: int,
    b: int,
    crc: spec_fn(Seq<u8>) -> u16,
)
    requires
        0 <= a,
        0 <= b,
        a + b <= frames.len(),
    ensures
        expected(frames, crc).take(a) + expected(frames.skip(a), crc).take(b) == expected(
            frames,
            crc,
        ).take(a + b),
{
    assert(expected(frames, crc).take(a) + expected(frames.skip(a), crc).take(b) =~= expected(
        frames,
        crc,
    ).take(a + b));
}

/// Noise in front of a stream does not matter, however long it is and however noise and stream are
/// cut into reads: a new reader checks the first frames of the stream, in order and each with its
/// own payload, and stands in the stream behind them.
#[verifier::spinoff_prover]
#[verifier::rlimit(60)]
pub proof fn law_noise_in_front_of_a_stream(
    noise: Seq<u8>,
    pending: Seq<WireFrame>,
    reads: Seq<Seq<u8>>,
    crc: spec_fn(Seq<u8>) -> u16,
)
    requires
        pending.len() > 0,
        sendable(pending),
        joined(reads) == noise + stream(pending),
        tinybuf::first_position(joined(reads), FRAME_START@) == Some(noise.len()),
        port_reads(reads),
    ensures
        ({
            let fresh = ReaderView { state: FrameState::Wait, buffer: Seq::empty() };
            let progress = received_all(fresh, reads, crc);
            let count = progress.frames.len() as int;
            &&& count <= pending.len()
            &&& progress.frames == expected(pending, crc).take(count)
            &&& awaits(progress.reader, Seq::empty(), pending.skip(count))
            &&& pending.len() == 1 ==> count == 1
        }),
{
    let none = Seq::<u8>::empty();
    let fresh = ReaderView { state: FrameState::Wait, buffer: none };
    assert(none + joined(reads) =~= joined(reads));
    assert(none.subrange(0, 0) =~= none);
    lemma_first_marker(joined(reads), noise.len() as int);
    lemma_behind_noise(none, fresh, reads, noise, pending, crc);
}

/// What a writer frames, a reader takes out, with noise in front of it too: a new reader that takes
/// in noise and then the frame of a payload, cut into reads in any way, delivers exactly that
/// payload, as valid, and is then as new.
pub proof fn law_round_trip_behind_noise(
    noise: Seq<u8>,
    payload: Seq<u8>,
    reads: Seq<Seq<u8>>,
    crc: spec_fn(Seq<u8>) -> u16,
)
    requires
        payload.len() <= MAX_PAYLOAD_LEN,
        joined(reads) == noise + serial::framed(payload, crc(payload)),
        tinybuf::first_position(joined(reads), FRAME_START@) == Some(noise.len()),
        port_reads(reads),
    ensures
        ({
            let fresh = ReaderView { state: FrameState::Wait, buffer: Seq::empty() };
            let progress = received_all(fresh, reads, crc);
            &&& progress.frames == seq![CheckedFrame { payload, valid: true }]
            &&& progress.reader == fresh
        }),
{
    let none = Seq::<u8>::empty();
    let fresh = ReaderView { state: FrameState::Wait, buffer: none };
    let frame = WireFrame { payload, crc: crc(payload) };
    let pending = seq![frame];
    assert(pending.drop_first().len() == 0);
    assert(stream(pending) =~= frame.bytes()) by {
        assert(stream(pending.drop_first()) =~= none);
    }
    law_noise_in_front_of_a_stream(noise, pending, reads, crc);
    let progress = received_all(fresh, reads, crc);
    assert(progress.frames =~= seq![CheckedFrame { payload, valid: true }]);
    law_end_of_stream(progress.reader, pending.skip(1));
    assert(progress.reader.buffer =~= none);
}

/// A frame that announces too long a payload is ignored: the scan goes on right behind its header,
/// as if the header were not there.
pub proof fn law_too_long_frame_is_ignored(
    announced: u16,
    rest: Seq<u8>,
    crc: spec_fn(Seq<u8>) -> u16,
)
    requires
        announced > MAX_PAYLOAD_LEN,
    ensures
        serial::scanned(FRAME_START@ + serial::le_bytes(announced) + rest, crc)
            == serial::scanned(rest, crc),
{
    let buffer = FRAME_START@ + serial::le_bytes(announced) + rest;
    lemma_le_round_trip(announced);
    assert(buffer.take(4) =~= FRAME_START@);
    lemma_opens(buffer);
    assert(buffer.skip(6) =~= rest);
}

/// Only framed payloads are delivered: every frame that a scan finds valid stands in the buffer
/// with its header in front and its checksum behind.
#[verifier::spinoff_prover]
#[verifier::rlimit(60)]
pub proof fn law_scan_delivers_framed_payloads(
    buffer: Seq<u8>,
    crc: spec_fn(Seq<u8>) -> u16,
    k: int,
)
    requires
        0 <= k < serial::scanned(buffer, crc).frames.len(),
        serial::scanned(buffer, crc).frames[k].valid,
    ensures
        ({
            let payload = serial::scanned(buffer, crc).frames[k].payload;
            &&& payload.len() <= MAX_PAYLOAD_LEN
            &&& exists|at: int| #[trigger]
                tinybuf::occurs_at(buffer, serial::framed(payload, crc(payload)), at)
        }),
    decreases buffer.len(),
{
    let i = tinybuf::first_position(buffer, FRAME_START@)->0 as int;
    let found = choose|found: int| tinybuf::first_at(buffer, FRAME_START@, found);
    assert(tinybuf::first_at(buffer, FRAME_START@, found));
    assert(i == found);
    let opened = buffer.skip(i);
    let n = serial::le_value(opened[4], opened[5]);
    let body = opened.skip(6);
    if n > MAX_PAYLOAD_LEN {
        law_scan_delivers_framed_payloads(body, crc, k);
        let payload = serial::scanned(body, crc).frames[k].payload;
        assert(buffer.skip(i + 6) =~= body);
        lemma_occurs_behind(buffer, i + 6, serial::framed(payload, crc(payload)));
    } else {
        let frame = serial::checked(body, n, crc);
        let next = body.skip(n as int + 2);
        if k == 0 {
            let size = n as int + 8;
            let bytes = serial::framed(frame.payload, crc(frame.payload));
            assert(buffer.subrange(i, i + size) =~= bytes) by {
                assert(buffer.subrange(i, i + 4) == FRAME_START@);
                assert forall|j: int| 0 <= j < 4 implies buffer[i + j] == FRAME_START@[j] by {
                    assert(buffer.subrange(i, i + 4)[j] == buffer[i + j]);
                }
            }
            assert(tinybuf::occurs_at(buffer, bytes, i));
        } else {
            law_scan_delivers_framed_payloads(next, crc, k - 1);
            let inner = serial::scanned(next, crc);
            assert(serial::scanned(buffer, crc).frames[k] == inner.frames[k - 1]);
            assert(buffer.skip(i + n as int + 8) =~= next);
            let payload = inner.frames[k - 1].payload;
            lemma_occurs_behind(
                buffer,
                i + n as int + 8,
                serial::framed(payload, crc(payload)),
            );
        }
    }
}

/// What stands behind the first `i` bytes of a buffer stands in the buffer.
proof fn lemma_occurs_behind(buffer: Seq<u8>, i: int, bytes: Seq<u8>)
    requires
        0 <= i <= buffer.len(),
        exists|at: int| #[trigger] tinybuf::occurs_at(buffer.skip(i), bytes, at),
    ensures
        exists|at: int| #[trigger] tinybuf::occurs_at(buffer, bytes, at),
{
    let at = choose|at: int| tinybuf::occurs_at(buffer.skip(i), bytes, at);
    assert(buffer.subrange(i + at, i + at + bytes.len()) =~= buffer.skip(i).subrange(
        at,
        at + bytes.len(),
    ));
    assert(tinybuf::occurs_at(buffer, bytes, i + at));
}

/// No payload is delivered unchecked: every frame that a read completes and finds valid stands,
/// with its checksum behind it, in the bytes that the reader had or took in.
pub proof fn law_delivered_payloads_were_received(
    reader: ReaderView,
    data: Seq<u8>,
    crc: spec_fn(Seq<u8>) -> u16,
    k: int,
)
    requires
        0 <= k < serial::received(reader, data, crc).frames.len(),
        serial::received(reader, data, crc).frames[k].valid,
        reader.wf(),
    ensures
        ({
            let payload = serial::received(reader, data, crc).frames[k].payload;
            &&& payload.len() <= MAX_PAYLOAD_LEN
            &&& exists|at: int| #[trigger]
                tinybuf::occurs_at(
                    reader.buffer + data,
                    payload + serial::le_bytes(crc(payload)),
                    at,
                )
        }),
{
    let buffer = tinybuf::pushed(reader.buffer, data, FRAME_BUFFER_LEN as nat);
    let payload = serial::received(reader, data, crc).frames[k].payload;
    let body = payload + serial::le_bytes(crc(payload));
    match reader.state {
        FrameState::Wait => {
            law_scan_delivers_framed_payloads(buffer, crc, k);
            let bytes = serial::framed(payload, crc(payload));
            let at = choose|at: int| #[trigger] tinybuf::occurs_at(buffer, bytes, at);
            assert(buffer.subrange(at + 6, at + 6 + body.len()) =~= body) by {
                assert(buffer.subrange(at, at + bytes.len()).skip(6) =~= bytes.skip(6));
                assert(bytes.skip(6) =~= body);
                assert(buffer.subrange(at + 6, at + 6 + body.len()) =~= buffer.subrange(
                    at,
                    at + bytes.len(),
                ).skip(6));
            }
            assert(tinybuf::occurs_at(buffer, body, at + 6));
        },
        FrameState::Frame(n) => {
            assert(buffer.subrange(0, body.len() as int) =~= body);
            assert(tinybuf::occurs_at(buffer, body, 0));
        },
    }
    let gone = tinybuf::evicted(reader.buffer.len(), data.len(), FRAME_BUFFER_LEN as nat) as int;
    assert((reader.buffer + data).skip(gone) =~= buffer);
    lemma_occurs_behind(reader.buffer + data, gone, body);
}

/// Inside a frame no read pushes buffered bytes out.
pub proof fn law_no_loss_inside_a_frame(reader: ReaderView, data: Seq<u8>)
    requires
        reader.wf(),
        reader.state is Frame,
        data.len() <= USB_BUFFER_LEN,
    ensures
        tinybuf::pushed(reader.buffer, data, FRAME_BUFFER_LEN as nat) == reader.buffer + data,
{
    assert(reader.buffer.skip(0) =~= reader.buffer);
}

} // verus!
