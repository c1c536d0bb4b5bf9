//! What a frame reader makes of any bytes: noise, whole frames, broken-off frames and headers that
//! announce too much, in one read and over many.

use crate::serial;
use crate::serial::{CheckedFrame, FrameState, ReaderView};
use crate::serial::{FRAME_START, MAX_PAYLOAD_LEN, USB_BUFFER_LEN};
use crate::serial_laws;
use crate::tinybuf;
use vstd::prelude::*;

verus! {

/// A start marker stands at position `i`.
pub open spec fn marker_at(bytes: Seq<u8>, i: int) -> bool {
    &&& 0 <= i
    &&& i + 4 <= bytes.len()
    &&& bytes[i] == 0xaa
    &&& bytes[i + 1] == 0xcc
    &&& bytes[i + 2] == 0xaa
    &&& bytes[i + 3] == 0xcc
}

/// No start marker begins in the first `end` bytes.
pub open spec fn quiet(bytes: Seq<u8>, end: int) -> bool {
    forall|i: int| 0 <= i < end ==> !#[trigger] marker_at(bytes, i)
}

/// The first six bytes of a frame with a payload of `n` bytes.
pub open spec fn head(n: int) -> Seq<u8> {
    seq![0xaau8, 0xcc, 0xaa, 0xcc, (n % 256) as u8, (n / 256) as u8]
}

/// A payload and its checksum field, low byte first.
pub open spec fn body(payload: Seq<u8>, field: u16) -> Seq<u8> {
    payload + seq![(field % 256) as u8, (field / 256) as u8]
}

/// A whole frame.
pub open spec fn whole(payload: Seq<u8>, field: u16) -> Seq<u8> {
    head(payload.len() as int) + body(payload, field)
}

/// A frame on the wire is what `framed` says.
pub proof fn law_frame_layout(payload: Seq<u8>, field: u16)
    requires
        payload.len() <= MAX_PAYLOAD_LEN,
    ensures
        serial::framed(payload, field) == whole(payload, field),
{
    assert(serial::framed(payload, field) =~= whole(payload, field));
}

/// A marker is an occurrence of the start bytes.
proof fn lemma_marker(bytes: Seq<u8>, i: int)
    ensures
        tinybuf::occurs_at(bytes, FRAME_START@, i) <==> marker_at(bytes, i),
{
    if 0 <= i && i + 4 <= bytes.len() {
        let part = bytes.subrange(i, i + 4);
        if marker_at(bytes, i) {
            assert(part =~= FRAME_START@);
        }
        if part == FRAME_START@ {
            assert(part[0] == 0xaa && part[1] == 0xcc && part[2] == 0xaa && part[3] == 0xcc);
        }
    }
}

/// Quiet bytes hold no start bytes.
proof fn lemma_quiet(bytes: Seq<u8>)
    requires
        quiet(bytes, bytes.len() as int),
    ensures
        tinybuf::first_position(bytes, FRAME_START@) is None,
{
    tinybuf::lemma_no_position(bytes, FRAME_START@);
    assert forall|i: int| !tinybuf::occurs_at(bytes, FRAME_START@, i) by {
        lemma_marker(bytes, i);
        assert(!marker_at(bytes, i));
    }
}

/// The first marker behind quiet bytes is the first position of the start bytes.
proof fn lemma_first(bytes: Seq<u8>, at: int)
    requires
        marker_at(bytes, at),
        quiet(bytes, at),
    ensures
        tinybuf::first_position(bytes, FRAME_START@) == Some(at as nat),
{
    lemma_marker(bytes, at);
    assert forall|j: int| 0 <= j < at implies !tinybuf::occurs_at(bytes, FRAME_START@, j) by {
        lemma_marker(bytes, j);
        assert(!marker_at(bytes, j));
    }
    assert(tinybuf::first_at(bytes, FRAME_START@, at));
    tinybuf::lemma_first_position(bytes, FRAME_START@, at);
}

/// Bytes without a marker complete nothing: the reader keeps them and goes on waiting.
pub proof fn law_quiet_bytes_are_kept(buffer: Seq<u8>, crc: spec_fn(Seq<u8>) -> u16)
    requires
        quiet(buffer, buffer.len() as int),
    ensures
        serial::scanned(buffer, crc).frames.len() == 0,
        serial::scanned(buffer, crc).reader.state is Wait,
        serial::scanned(buffer, crc).reader.buffer == buffer,
{
    lemma_quiet(buffer);
}

/// A whole frame loses nothing and hides nothing. Whatever noise stands in front of it and whatever
/// bytes stand behind it, it is the first frame checked, with its own payload, and valid exactly
/// when its field holds the payload's checksum; then everything goes on as with the bytes behind it
/// alone.
#[verifier::spinoff_prover]
#[verifier::rlimit(60)]
pub proof fn law_whole_frame_and_what_follows(
    noise: Seq<u8>,
    payload: Seq<u8>,
    field: u16,
    rest: Seq<u8>,
    crc: spec_fn(Seq<u8>) -> u16,
)
    requires
        payload.len() <= 2040,
        quiet(noise + whole(payload, field) + rest, noise.len() as int),
    ensures
        ({
            let progress = serial::scanned(noise + whole(payload, field) + rest, crc);
            let behind = serial::scanned(rest, crc);
            &&& progress.frames.len() == 1 + behind.frames.len()
            &&& progress.frames[0].payload == payload
            &&& progress.frames[0].valid <==> crc(payload) == field
            &&& progress.frames.skip(1) == behind.frames
            &&& progress.reader == behind.reader
        }),
{
    let buffer = noise + whole(payload, field) + rest;
    let i = noise.len() as int;
    let n = payload.len() as int;
    assert(marker_at(buffer, i));
    lemma_first(buffer, i);
    let opened = buffer.skip(i);
    let inside = opened.skip(6);
    assert(opened[4] == (n % 256) as u8 && opened[5] == (n / 256) as u8);
    assert(serial::le_value(opened[4], opened[5]) == n);
    assert(inside =~= body(payload, field) + rest);
    assert(inside.take(n) =~= payload);
    assert(inside[n] == (field % 256) as u8 && inside[n + 1] == (field / 256) as u8);
    assert(inside.skip(n + 2) =~= rest);
    let progress = serial::scanned(buffer, crc);
    assert(progress.frames.skip(1) =~= serial::scanned(rest, crc).frames);
}

/// A frame that breaks off behind its header leaves the reader in it, with all of its body that is
/// there, whatever these bytes are.
#[verifier::spinoff_prover]
#[verifier::rlimit(60)]
pub proof fn law_broken_off_frame_is_waited_for(
    noise: Seq<u8>,
    payload: Seq<u8>,
    field: u16,
    k: int,
    crc: spec_fn(Seq<u8>) -> u16,
)
    requires
        payload.len() <= 2040,
        0 <= k < payload.len() + 2,
        quiet(noise + head(payload.len() as int) + body(payload, field).take(k), noise.len() as int),
    ensures
        ({
            let buffer = noise + head(payload.len() as int) + body(payload, field).take(k);
            let progress = serial::scanned(buffer, crc);
            &&& progress.frames.len() == 0
            &&& progress.reader.state == FrameState::Frame(payload.len() as usize)
            &&& progress.reader.buffer == body(payload, field).take(k)
        }),
{
    let part = body(payload, field).take(k);
    let n = payload.len() as int;
    let buffer = noise + head(n) + part;
    let i = noise.len() as int;
    assert(marker_at(buffer, i));
    lemma_first(buffer, i);
    let opened = buffer.skip(i);
    assert(opened[4] == (n % 256) as u8 && opened[5] == (n / 256) as u8);
    assert(serial::le_value(opened[4], opened[5]) == n);
    assert(opened.skip(6) =~= part);
}

/// A header that breaks off is waited for; the noise in front of it is dropped.
#[verifier::spinoff_prover]
#[verifier::rlimit(60)]
pub proof fn law_broken_off_header_is_waited_for(
    noise: Seq<u8>,
    n: int,
    k: int,
    crc: spec_fn(Seq<u8>) -> u16,
)
    requires
        4 <= k < 6,
        quiet(noise + head(n).take(k), noise.len() as int),
    ensures
        ({
            let progress = serial::scanned(noise + head(n).take(k), crc);
            &&& progress.frames.len() == 0
            &&& progress.reader.state is Wait
            &&& progress.reader.buffer == head(n).take(k)
        }),
{
    let buffer = noise + head(n).take(k);
    let i = noise.len() as int;
    assert(marker_at(buffer, i));
    lemma_first(buffer, i);
    assert(buffer.skip(i) =~= head(n).take(k));
}

/// A header that announces more than 2040 bytes is dropped alone, with the noise in front of it:
/// all goes on as with the bytes behind it.
pub proof fn law_header_that_announces_too_much(
    noise: Seq<u8>,
    n: int,
    rest: Seq<u8>,
    crc: spec_fn(Seq<u8>) -> u16,
)
    requires
        2040 < n < 0x1_0000,
        quiet(noise + head(n) + rest, noise.len() as int),
    ensures
        serial::scanned(noise + head(n) + rest, crc) == serial::scanned(rest, crc),
{
    let buffer = noise + head(n) + rest;
    let i = noise.len() as int;
    assert(marker_at(buffer, i));
    lemma_first(buffer, i);
    let opened = buffer.skip(i);
    assert(opened[4] == (n % 256) as u8 && opened[5] == (n / 256) as u8);
    assert(serial::le_value(opened[4], opened[5]) == n);
    assert(opened.skip(6) =~= rest);
}

/// What a reader has at hand with new data behind what it had: everything, while that is no more
/// than its 2112 bytes. Otherwise as many of the oldest bytes go as the data has, and 1056 at
/// least.
pub open spec fn at_hand(held: Seq<u8>, data: Seq<u8>) -> Seq<u8> {
    let wanted: int = if data.len() > 1056 {
        data.len() as int
    } else {
        1056
    };
    if held.len() + data.len() <= 2112 {
        held + data
    } else if wanted >= held.len() {
        data
    } else {
        held.skip(wanted) + data
    }
}

/// What a push leaves in the reader's buffer.
proof fn lemma_at_hand(held: Seq<u8>, data: Seq<u8>)
    requires
        held.len() <= 2112,
        data.len() <= 2112,
    ensures
        tinybuf::pushed(held, data, 2112) == at_hand(held, data),
        held.len() + data.len() <= 2112 ==> at_hand(held, data) == held + data,
{
    assert(tinybuf::pushed(held, data, 2112) =~= at_hand(held, data));
}

/// A reader that waits looks at everything that it has at hand, old and new together.
pub proof fn law_waiting_reader_looks_at_everything(
    reader: ReaderView,
    data: Seq<u8>,
    crc: spec_fn(Seq<u8>) -> u16,
)
    requires
        reader.state is Wait,
        reader.buffer.len() <= 2112,
        data.len() <= 2112,
    ensures
        serial::received(reader, data, crc) == serial::scanned(at_hand(reader.buffer, data), crc),
{
    lemma_at_hand(reader.buffer, data);
}

/// A reader inside a frame takes the next bytes for that frame, whatever they are, until payload
/// and checksum are all there. It then checks the frame, once, and keeps what stands behind it.
pub proof fn law_reader_inside_a_frame(
    reader: ReaderView,
    n: usize,
    data: Seq<u8>,
    crc: spec_fn(Seq<u8>) -> u16,
)
    requires
        reader.state == FrameState::Frame(n),
        reader.wf(),
        data.len() <= 2112,
    ensures
        data.len() <= 64 ==> at_hand(reader.buffer, data) == reader.buffer + data,
        ({
            let have = at_hand(reader.buffer, data);
            let progress = serial::received(reader, data, crc);
            &&& have.len() < n + 2 ==> {
                &&& progress.frames.len() == 0
                &&& progress.reader.state == reader.state
                &&& progress.reader.buffer == have
            }
            &&& have.len() >= n + 2 ==> {
                &&& progress.frames.len() == 1
                &&& progress.frames[0].payload == have.take(n as int)
                &&& progress.frames[0].valid <==> crc(have.take(n as int)) == have[n as int] + 256
                    * have[n + 1]
                &&& progress.reader.state is Wait
                &&& progress.reader.buffer == have.skip(n + 2)
            }
        }),
{
    lemma_at_hand(reader.buffer, data);
}

/// A frame as it was sent, with the noise in front of it.
pub struct Sent {
    pub noise: Seq<u8>,
    pub payload: Seq<u8>,
    pub field: u16,
}

impl Sent {
    /// The bytes of the frame.
    pub open spec fn frame(self) -> Seq<u8> {
        whole(self.payload, self.field)
    }

    /// The noise and the frame.
    pub open spec fn bytes(self) -> Seq<u8> {
        self.noise + self.frame()
    }

    /// What a reader should say of it.
    pub open spec fn heard(self, crc: spec_fn(Seq<u8>) -> u16) -> CheckedFrame {
        CheckedFrame { payload: self.payload, valid: crc(self.payload) == self.field }
    }

    /// The frame is one that a writer can send, and its own marker is the first in its bytes.
    pub open spec fn clean(self) -> bool {
        &&& self.payload.len() <= 2040
        &&& quiet(self.bytes(), self.noise.len() as int)
    }
}

/// Everything on the line: frames with noise in front of each, and noise behind the last.
pub open spec fn line(sent: Seq<Sent>, tail: Seq<u8>) -> Seq<u8>
    decreases sent.len(),
{
    if sent.len() == 0 {
        tail
    } else {
        sent[0].bytes() + line(sent.drop_first(), tail)
    }
}

/// What a reader should say of everything on the line.
pub open spec fn heard(sent: Seq<Sent>, crc: spec_fn(Seq<u8>) -> u16) -> Seq<CheckedFrame> {
    sent.map_values(|one: Sent| one.heard(crc))
}

/// No noise holds a marker or makes one with the frame behind it.
pub open spec fn clean(sent: Seq<Sent>, tail: Seq<u8>) -> bool {
    &&& forall|i: int| 0 <= i < sent.len() ==> (#[trigger] sent[i]).clean()
    &&& quiet(tail, tail.len() as int)
}

/// The reader has lost nothing that matters: what it has buffered, with `rest` behind it, is what
/// is left of the line. Inside a frame, the header and the noise in front of it are gone.
pub open spec fn stands(
    reader: ReaderView,
    rest: Seq<u8>,
    sent: Seq<Sent>,
    tail: Seq<u8>,
) -> bool {
    &&& clean(sent, tail)
    &&& reader.buffer.len() <= 2112
    &&& match reader.state {
        FrameState::Wait => {
            &&& reader.buffer + rest == line(sent, tail)
            &&& sent.len() > 0 ==> reader.buffer.len() < sent[0].noise.len() + 64
        },
        FrameState::Frame(n) => {
            &&& sent.len() > 0
            &&& n == sent[0].payload.len()
            &&& reader.buffer.len() < n + 2
            &&& reader.buffer + rest == body(sent[0].payload, sent[0].field) + line(
                sent.drop_first(),
                tail,
            )
        },
    }
}

/// Bytes at the front of quiet bytes are quiet.
proof fn lemma_quiet_front(bytes: Seq<u8>, end: int, front: Seq<u8>, to: int)
    requires
        quiet(bytes, end),
        front.len() <= bytes.len(),
        bytes.take(front.len() as int) == front,
        to <= end,
    ensures
        quiet(front, to),
{
    assert forall|i: int| 0 <= i < to implies !#[trigger] marker_at(front, i) by {
        if marker_at(front, i) {
            assert(front =~= bytes.take(front.len() as int));
            assert(marker_at(bytes, i));
        }
    }
}

/// Quiet bytes with something behind them are quiet up to where a marker could reach behind them.
proof fn lemma_quiet_extended(bytes: Seq<u8>, end: int, more: Seq<u8>)
    requires
        quiet(bytes, end),
        end + 4 <= bytes.len() + 1,
    ensures
        quiet(bytes + more, end),
{
    assert forall|i: int| 0 <= i < end implies !#[trigger] marker_at(bytes + more, i) by {
        if marker_at(bytes + more, i) {
            assert(marker_at(bytes, i));
        }
    }
}

/// The line without its first frame is clean too.
proof fn lemma_clean_rest(sent: Seq<Sent>, tail: Seq<u8>)
    requires
        sent.len() > 0,
        clean(sent, tail),
    ensures
        clean(sent.drop_first(), tail),
{
    let others = sent.drop_first();
    assert forall|i: int| 0 <= i < others.len() implies (#[trigger] others[i]).clean() by {
        assert(others[i] == sent[i + 1]);
    }
}

/// The first frame with less noise in front of it.
spec fn shortened(sent: Seq<Sent>, k: int) -> Seq<Sent> {
    sent.update(
        0,
        Sent {
            noise: sent[0].noise.skip(k),
            payload: sent[0].payload,
            field: sent[0].field,
        },
    )
}

/// Less noise in front of the first frame changes nothing but the front of the line.
proof fn lemma_shortened(sent: Seq<Sent>, tail: Seq<u8>, k: int, crc: spec_fn(Seq<u8>) -> u16)
    requires
        sent.len() > 0,
        clean(sent, tail),
        0 <= k <= sent[0].noise.len(),
    ensures
        clean(shortened(sent, k), tail),
        line(shortened(sent, k), tail) == line(sent, tail).skip(k),
        heard(shortened(sent, k), crc) == heard(sent, crc),
        shortened(sent, k).len() == sent.len(),
        shortened(sent, k)[0].noise.len() == sent[0].noise.len() - k,
        shortened(sent, k)[0].payload == sent[0].payload,
        shortened(sent, k)[0].field == sent[0].field,
        shortened(sent, k).drop_first() == sent.drop_first(),
{
    let less = shortened(sent, k);
    assert(less.drop_first() =~= sent.drop_first());
    assert(line(less, tail) =~= line(sent, tail).skip(k));
    assert(heard(less, crc) =~= heard(sent, crc));
    assert(sent[0].clean());
    let from = sent[0].bytes();
    let to = less[0].bytes();
    assert(to =~= from.skip(k));
    assert(less[0].clean()) by {
        assert forall|i: int| 0 <= i < less[0].noise.len() implies !#[trigger] marker_at(to, i) by {
            if marker_at(to, i) {
                assert(marker_at(from, i + k));
            }
        }
    }
    assert forall|i: int| 0 <= i < less.len() implies (#[trigger] less[i]).clean() by {
        if i > 0 {
            assert(less[i] == sent[i]);
        }
    }
}

/// A scan over a part of the line that breaks off in its first frame or in the noise before that.
#[verifier::spinoff_prover]
#[verifier::rlimit(60)]
proof fn lemma_scan_broken_off(
    buffer: Seq<u8>,
    rest: Seq<u8>,
    sent: Seq<Sent>,
    tail: Seq<u8>,
    crc: spec_fn(Seq<u8>) -> u16,
) -> (left: Seq<Sent>)
    requires
        clean(sent, tail),
        buffer.len() <= 2112,
        buffer + rest == line(sent, tail),
        sent.len() > 0,
        buffer.len() < sent[0].bytes().len(),
    ensures
        ({
            let progress = serial::scanned(buffer, crc);
            &&& progress.frames.len() == 0
            &&& left.len() == sent.len()
            &&& heard(left, crc) == heard(sent, crc)
            &&& stands(progress.reader, rest, left, tail)
            &&& rest.len() > 0
        }),
{
    let progress = serial::scanned(buffer, crc);
    let all = line(sent, tail);
    let size = buffer.len() as int;
    let one = sent[0];
    let after = line(sent.drop_first(), tail);
    let noise = one.noise;
    let i = noise.len() as int;
    let n = one.payload.len() as int;
    let inside = body(one.payload, one.field);
    assert(one.clean());
    assert(all == one.bytes() + after);
    assert(rest.len() > 0) by {
        assert((buffer + rest).len() == one.bytes().len() + after.len());
    }
    assert(one.bytes().take(size) =~= buffer) by {
        assert((buffer + rest).take(size) =~= buffer);
        assert((one.bytes() + after).take(size) =~= one.bytes().take(size));
    }
    lemma_quiet_front(one.bytes(), i, buffer, i);
    if size < i + 4 {
        assert(quiet(buffer, size)) by {
            assert forall|j: int| 0 <= j < size implies !#[trigger] marker_at(buffer, j) by {}
        }
        law_quiet_bytes_are_kept(buffer, crc);
        sent
    } else if size < i + 6 {
        assert(buffer =~= noise + head(n).take(size - i));
        law_broken_off_header_is_waited_for(noise, n, size - i, crc);
        lemma_shortened(sent, tail, i, crc);
        assert(progress.reader.buffer =~= buffer.skip(i));
        assert(buffer.skip(i) + rest =~= (buffer + rest).skip(i));
        shortened(sent, i)
    } else {
        let k = size - i - 6;
        assert(buffer =~= noise + head(n) + inside.take(k));
        law_broken_off_frame_is_waited_for(noise, one.payload, one.field, k, crc);
        assert(progress.reader.buffer + rest =~= inside + after) by {
            assert(inside.take(k) =~= buffer.skip(i + 6));
            assert(buffer.skip(i + 6) + rest =~= (buffer + rest).skip(i + 6));
            assert((one.bytes() + after).skip(i + 6) =~= inside + after);
        }
        sent
    }
}

/// A part of the line that holds its first frame whole.
#[verifier::spinoff_prover]
#[verifier::rlimit(60)]
proof fn lemma_scan_first(
    buffer: Seq<u8>,
    rest: Seq<u8>,
    sent: Seq<Sent>,
    tail: Seq<u8>,
    crc: spec_fn(Seq<u8>) -> u16,
)
    requires
        clean(sent, tail),
        buffer + rest == line(sent, tail),
        sent.len() > 0,
        buffer.len() >= sent[0].bytes().len(),
    ensures
        ({
            let next = buffer.skip(sent[0].bytes().len() as int);
            let progress = serial::scanned(buffer, crc);
            let inner = serial::scanned(next, crc);
            &&& next + rest == line(sent.drop_first(), tail)
            &&& progress.frames == seq![sent[0].heard(crc)] + inner.frames
            &&& progress.reader == inner.reader
        }),
{
    let one = sent[0];
    let size = one.bytes().len() as int;
    let after = line(sent.drop_first(), tail);
    let next = buffer.skip(size);
    let progress = serial::scanned(buffer, crc);
    let inner = serial::scanned(next, crc);
    assert(one.clean());
    assert(buffer.take(size) =~= one.bytes()) by {
        assert(buffer.take(size) =~= (buffer + rest).take(size));
        assert((one.bytes() + after).take(size) =~= one.bytes());
    }
    assert(next + rest =~= after) by {
        assert(next + rest =~= (buffer + rest).skip(size));
        assert((one.bytes() + after).skip(size) =~= after);
    }
    assert(buffer =~= one.bytes() + next) by {
        assert(buffer =~= buffer.take(size) + next);
    }
    lemma_quiet_extended(one.bytes(), one.noise.len() as int, next);
    law_whole_frame_and_what_follows(one.noise, one.payload, one.field, next, crc);
    assert(progress.frames[0] == one.heard(crc));
    assert(progress.frames =~= seq![one.heard(crc)] + inner.frames) by {
        assert forall|j: int| 1 <= j < progress.frames.len() implies progress.frames[j]
            == inner.frames[j - 1] by {
            assert(progress.frames.skip(1)[j - 1] == progress.frames[j]);
        }
    }
}

/// A scan over the front of the line.
#[verifier::spinoff_prover]
#[verifier::rlimit(60)]
proof fn lemma_scan_line(
    buffer: Seq<u8>,
    rest: Seq<u8>,
    sent: Seq<Sent>,
    tail: Seq<u8>,
    crc: spec_fn(Seq<u8>) -> u16,
) -> (left: Seq<Sent>)
    requires
        clean(sent, tail),
        buffer.len() <= 2112,
        buffer + rest == line(sent, tail),
    ensures
        ({
            let progress = serial::scanned(buffer, crc);
            let count = progress.frames.len() as int;
            &&& count + left.len() == sent.len()
            &&& progress.frames == heard(sent, crc).take(count)
            &&& heard(left, crc) == heard(sent, crc).skip(count)
            &&& stands(progress.reader, rest, left, tail)
            &&& rest.len() == 0 ==> left.len() == 0
        }),
    decreases sent.len(),
{
    let progress = serial::scanned(buffer, crc);
    let all = heard(sent, crc);
    assert(all.skip(0) =~= all);
    assert(all.take(0) =~= Seq::<CheckedFrame>::empty());
    if sent.len() == 0 {
        let size = buffer.len() as int;
        assert(tail.take(size) =~= buffer) by {
            assert((buffer + rest).take(size) =~= buffer);
        }
        lemma_quiet_front(tail, tail.len() as int, buffer, size);
        law_quiet_bytes_are_kept(buffer, crc);
        assert(progress.frames =~= all.take(0));
        sent
    } else if buffer.len() < sent[0].bytes().len() {
        let left = lemma_scan_broken_off(buffer, rest, sent, tail, crc);
        assert(progress.frames =~= all.take(0));
        left
    } else {
        let others = sent.drop_first();
        let next = buffer.skip(sent[0].bytes().len() as int);
        lemma_scan_first(buffer, rest, sent, tail, crc);
        lemma_clean_rest(sent, tail);
        let left = lemma_scan_line(next, rest, others, tail, crc);
        let count = serial::scanned(next, crc).frames.len() as int;
        assert(all =~= seq![sent[0].heard(crc)] + heard(others, crc));
        assert(progress.frames =~= all.take(count + 1));
        assert(heard(others, crc).skip(count) =~= all.skip(count + 1));
        left
    }
}

/// One read of the line: what is left, and how much of the noise in front of that is gone.
proof fn lemma_read_line(
    reader: ReaderView,
    data: Seq<u8>,
    rest: Seq<u8>,
    sent: Seq<Sent>,
    tail: Seq<u8>,
    crc: spec_fn(Seq<u8>) -> u16,
) -> (left: (Seq<Sent>, Seq<u8>))
    requires
        stands(reader, data + rest, sent, tail),
        data.len() <= 64,
    ensures
        ({
            let progress = serial::received(reader, data, crc);
            let count = progress.frames.len() as int;
            &&& count + left.0.len() == sent.len()
            &&& progress.frames == heard(sent, crc).take(count)
            &&& heard(left.0, crc) == heard(sent, crc).skip(count)
            &&& stands(progress.reader, rest, left.0, left.1)
            &&& rest.len() == 0 && reader.state is Wait ==> left.0.len() == 0
        }),
{
    let progress = serial::received(reader, data, crc);
    let have = reader.buffer + data;
    assert(reader.buffer + (data + rest) =~= have + rest);
    match reader.state {
        FrameState::Wait => {
            law_waiting_reader_looks_at_everything(reader, data, crc);
            if have.len() <= 2112 {
                (lemma_scan_line(have, rest, sent, tail, crc), tail)
            } else {
                let buffer = reader.buffer.skip(1056) + data;
                assert(at_hand(reader.buffer, data) == buffer);
                assert(buffer + rest =~= line(sent, tail).skip(1056));
                if sent.len() == 0 {
                    let less = tail.skip(1056);
                    assert(quiet(less, less.len() as int)) by {
                        assert forall|i: int| 0 <= i < less.len() implies !#[trigger] marker_at(
                            less,
                            i,
                        ) by {
                            if marker_at(less, i) {
                                assert(marker_at(tail, i + 1056));
                            }
                        }
                    }
                    (lemma_scan_line(buffer, rest, sent, less, crc), less)
                } else {
                    lemma_shortened(sent, tail, 1056, crc);
                    (lemma_scan_line(buffer, rest, shortened(sent, 1056), tail, crc), tail)
                }
            }
        },
        FrameState::Frame(n) => {
            let one = sent[0];
            let others = sent.drop_first();
            let inside = body(one.payload, one.field);
            let after = line(others, tail);
            assert(one.clean());
            assert(reader.wf());
            law_reader_inside_a_frame(reader, n, data, crc);
            lemma_clean_rest(sent, tail);
            assert(heard(sent, crc).skip(0) =~= heard(sent, crc));
            if have.len() < n + 2 {
                assert(progress.frames =~= heard(sent, crc).take(0));
                (sent, tail)
            } else {
                let size = n + 2;
                assert(inside.len() == size);
                assert(have.take(size) =~= inside) by {
                    assert(have.take(size) =~= (have + rest).take(size));
                    assert((inside + after).take(size) =~= inside);
                }
                assert(have.take(n as int) =~= one.payload) by {
                    assert(have.take(n as int) =~= have.take(size).take(n as int));
                    assert(inside.take(n as int) =~= one.payload);
                }
                assert(have[n as int] == have.take(size)[n as int]);
                assert(have[n + 1] == have.take(size)[n + 1]);
                assert(have.skip(size) + rest =~= after) by {
                    assert(have.skip(size) + rest =~= (have + rest).skip(size));
                    assert((inside + after).skip(size) =~= after);
                }
                assert(progress.frames[0] == one.heard(crc));
                assert(progress.frames =~= heard(sent, crc).take(1));
                assert(heard(others, crc) =~= heard(sent, crc).skip(1));
                (others, tail)
            }
        },
    }
}

/// Any number of reads of the line.
proof fn lemma_reads_line(
    reader: ReaderView,
    reads: Seq<Seq<u8>>,
    rest: Seq<u8>,
    sent: Seq<Sent>,
    tail: Seq<u8>,
    crc: spec_fn(Seq<u8>) -> u16,
) -> (left: (Seq<Sent>, Seq<u8>))
    requires
        stands(reader, serial_laws::joined(reads) + rest, sent, tail),
        serial_laws::port_reads(reads),
    ensures
        ({
            let progress = serial_laws::received_all(reader, reads, crc);
            let count = progress.frames.len() as int;
            &&& count + left.0.len() == sent.len()
            &&& progress.frames == heard(sent, crc).take(count)
            &&& heard(left.0, crc) == heard(sent, crc).skip(count)
            &&& stands(progress.reader, rest, left.0, left.1)
        }),
    decreases reads.len(),
{
    let all = heard(sent, crc);
    if reads.len() == 0 {
        assert(serial_laws::joined(reads) + rest =~= rest);
        assert(serial_laws::received_all(reader, reads, crc).frames =~= all.take(0));
        assert(all.skip(0) =~= all);
        (sent, tail)
    } else {
        let data = reads[0];
        let others = reads.drop_first();
        let later = serial_laws::joined(others) + rest;
        assert(serial_laws::joined(reads) + rest =~= data + later);
        assert(data.len() <= USB_BUFFER_LEN);
        let here = lemma_read_line(reader, data, later, sent, tail, crc);
        let first = serial::received(reader, data, crc);
        assert(serial_laws::port_reads(others)) by {
            assert forall|i: int| 0 <= i < others.len() implies (#[trigger] others[i]).len()
                <= USB_BUFFER_LEN by {
                assert(others[i] == reads[i + 1]);
            }
        }
        let left = lemma_reads_line(first.reader, others, rest, here.0, here.1, crc);
        let more = serial_laws::received_all(first.reader, others, crc);
        let a = first.frames.len() as int;
        let b = more.frames.len() as int;
        assert(all.take(a) + all.skip(a).take(b) =~= all.take(a + b));
        assert(all.skip(a).skip(b) =~= all.skip(a + b));
        left
    }
}

/// Noise loses no frame. Frames that come with noise in front of each and behind the last, cut into
/// reads in any way, are checked in order, each with its own payload, valid exactly when its field
/// holds the payload's checksum; and nothing else is checked. Once one more read has come, all of
/// them have been.
pub proof fn law_noise_loses_no_frame(
    sent: Seq<Sent>,
    tail: Seq<u8>,
    reads: Seq<Seq<u8>>,
    crc: spec_fn(Seq<u8>) -> u16,
)
    requires
        clean(sent, tail),
        serial_laws::joined(reads) == line(sent, tail),
        serial_laws::port_reads(reads),
    ensures
        ({
            let fresh = ReaderView { state: FrameState::Wait, buffer: Seq::empty() };
            let progress = serial_laws::received_all(fresh, reads, crc);
            let more = serial::received(progress.reader, Seq::empty(), crc);
            let frames = progress.frames + more.frames;
            &&& progress.frames.len() <= sent.len()
            &&& frames.len() == sent.len()
            &&& forall|i: int|
                0 <= i < sent.len() ==> {
                    &&& (#[trigger] frames[i]).payload == sent[i].payload
                    &&& frames[i].valid <==> crc(sent[i].payload) == sent[i].field
                }
        }),
{
    let none = Seq::<u8>::empty();
    let fresh = ReaderView { state: FrameState::Wait, buffer: none };
    let all = heard(sent, crc);
    assert(none + (serial_laws::joined(reads) + none) =~= line(sent, tail));
    let left = lemma_reads_line(fresh, reads, none, sent, tail, crc);
    let progress = serial_laws::received_all(fresh, reads, crc);
    let a = progress.frames.len() as int;
    assert(progress.reader.state is Wait) by {
        if let FrameState::Frame(n) = progress.reader.state {
            assert((progress.reader.buffer + none).len() == progress.reader.buffer.len());
            assert((body(left.0[0].payload, left.0[0].field) + line(
                left.0.drop_first(),
                left.1,
            )).len() >= n + 2);
        }
    }
    assert(none + none =~= none);
    let end = lemma_read_line(progress.reader, none, none, left.0, left.1, crc);
    let more = serial::received(progress.reader, none, crc);
    let b = more.frames.len() as int;
    assert(all.take(a) + all.skip(a).take(b) =~= all.take(a + b));
    assert(all.take(a + b) =~= all);
    let frames = progress.frames + more.frames;
    assert(frames =~= all);
    assert forall|i: int| 0 <= i < sent.len() implies {
        &&& (#[trigger] frames[i]).payload == sent[i].payload
        &&& frames[i].valid <==> crc(sent[i].payload) == sent[i].field
    } by {
        assert(frames[i] == sent[i].heard(crc));
    }
}

} // verus!
