//! What holds of everything that a frame reader has ever taken in and given out.

use crate::serial;
use crate::serial::{CheckedFrame, FrameState, ReaderView};
use crate::serial::{CRC_LEN, FRAME_BUFFER_LEN, FRAME_START, MAX_PAYLOAD_LEN, USB_BUFFER_LEN};
use crate::serial_laws;
use crate::serial_laws::WireFrame;
use crate::tinybuf;
use vstd::prelude::*;

verus! {

/// These frames stand in `all` at these positions, between `from` and `to`, one behind the other
/// and none over another.
pub open spec fn in_order(
    all: Seq<u8>,
    wires: Seq<WireFrame>,
    positions: Seq<int>,
    from: int,
    to: int,
) -> bool {
    &&& positions.len() == wires.len()
    &&& forall|i: int|
        0 <= i < wires.len() ==> {
            &&& tinybuf::occurs_at(all, wires[i].bytes(), #[trigger] positions[i])
            &&& from <= positions[i]
            &&& positions[i] + wires[i].bytes().len() <= to
        }
    &&& forall|i: int, j: int|
        0 <= i < j < wires.len() ==> (#[trigger] positions[i]) + wires[i].bytes().len() <= (
        #[trigger] positions[j])
}

/// What a reader has taken in and not dealt with yet: its buffer, and in front of that the header
/// of the frame that it is in.
pub open spec fn unsettled(reader: ReaderView) -> Seq<u8> {
    match reader.state {
        FrameState::Wait => reader.buffer,
        FrameState::Frame(n) => FRAME_START@ + serial::le_bytes(n as u16) + reader.buffer,
    }
}

/// Positions moved up by `k`.
spec fn moved(positions: Seq<int>, k: int) -> Seq<int> {
    positions.map_values(|at: int| at + k)
}

/// What stands in a part of `all` stands in `all`, so much further up.
proof fn lemma_moved(
    all: Seq<u8>,
    k: int,
    part: Seq<u8>,
    wires: Seq<WireFrame>,
    positions: Seq<int>,
    from: int,
    to: int,
)
    requires
        0 <= k,
        k + part.len() <= all.len(),
        all.subrange(k, k + part.len()) == part,
        in_order(part, wires, positions, from, to),
    ensures
        in_order(all, wires, moved(positions, k), from + k, to + k),
{
    let higher = moved(positions, k);
    assert forall|i: int| 0 <= i < wires.len() implies {
        &&& tinybuf::occurs_at(all, wires[i].bytes(), #[trigger] higher[i])
        &&& from + k <= higher[i]
        &&& higher[i] + wires[i].bytes().len() <= to + k
    } by {
        let at = positions[i];
        let len = wires[i].bytes().len();
        assert(all.subrange(k + at, k + at + len) =~= part.subrange(at, at + len)) by {
            assert(part =~= all.subrange(k, k + part.len()));
        }
    }
    assert forall|i: int, j: int| 0 <= i < j < wires.len() implies (#[trigger] higher[i])
        + wires[i].bytes().len() <= (#[trigger] higher[j]) by {
        assert(positions[i] + wires[i].bytes().len() <= positions[j]);
    }
}

/// Two groups of frames, the second behind the first, are one group.
proof fn lemma_joined(
    all: Seq<u8>,
    wires: Seq<WireFrame>,
    positions: Seq<int>,
    more: Seq<WireFrame>,
    behind: Seq<int>,
    from: int,
    middle: int,
    to: int,
)
    requires
        in_order(all, wires, positions, from, middle),
        in_order(all, more, behind, middle, to),
        from <= middle <= to,
    ensures
        in_order(all, wires + more, positions + behind, from, to),
{
    let both = wires + more;
    let places = positions + behind;
    let len = wires.len() as int;
    assert forall|i: int| 0 <= i < both.len() implies {
        &&& tinybuf::occurs_at(all, both[i].bytes(), #[trigger] places[i])
        &&& from <= places[i]
        &&& places[i] + both[i].bytes().len() <= to
    } by {
        if i < len {
            assert(places[i] == positions[i]);
        } else {
            assert(places[i] == behind[i - len]);
        }
    }
    assert forall|i: int, j: int| 0 <= i < j < both.len() implies (#[trigger] places[i])
        + both[i].bytes().len() <= (#[trigger] places[j]) by {
        if i < len {
            assert(places[i] == positions[i]);
        } else {
            assert(places[i] == behind[i - len]);
        }
        if j < len {
            assert(places[j] == positions[j]);
        } else {
            assert(places[j] == behind[j - len]);
        }
    }
}

/// A frame whose header and body stand in a buffer, one behind the other.
proof fn lemma_frame_stands(all: Seq<u8>, at: int, n: nat, crc: spec_fn(Seq<u8>) -> u16) -> (wire:
    WireFrame)
    requires
        0 <= at,
        at + 6 + n + CRC_LEN <= all.len(),
        n <= MAX_PAYLOAD_LEN,
        all.subrange(at, at + 6) == FRAME_START@ + serial::le_bytes(n as u16),
    ensures
        wire.payload.len() == n,
        tinybuf::occurs_at(all, wire.bytes(), at),
        wire.bytes().len() == n + 8,
        wire.expected(crc) == serial::checked(all.skip(at + 6), n, crc),
{
    let body = all.skip(at + 6);
    let low = body[n as int];
    let high = body[n as int + 1];
    let wire = WireFrame {
        payload: body.take(n as int),
        crc: serial::le_value(low, high) as u16,
    };
    let bytes = wire.bytes();
    assert(serial::le_bytes(wire.crc) =~= seq![low, high]);
    assert(all.subrange(at, at + n + 8) =~= bytes) by {
        let head = FRAME_START@ + serial::le_bytes(n as u16);
        assert(head.len() == 6);
        assert(bytes =~= head + wire.payload + seq![low, high]);
        assert forall|j: int| 0 <= j < 6 implies all[at + j] == head[j] by {
            assert(all.subrange(at, at + 6)[j] == all[at + j]);
        }
    }
    wire
}

/// The header that a scan finds in a buffer.
proof fn lemma_header(buffer: Seq<u8>, i: int)
    requires
        tinybuf::first_position(buffer, FRAME_START@) == Some(i as nat),
        0 <= i,
    ensures
        i + 4 <= buffer.len(),
        i + 6 <= buffer.len() ==> buffer.subrange(i, i + 6) == FRAME_START@ + serial::le_bytes(
            serial::le_value(buffer[i + 4], buffer[i + 5]) as u16,
        ),
{
    let found = choose|found: int| tinybuf::first_at(buffer, FRAME_START@, found);
    assert(tinybuf::first_at(buffer, FRAME_START@, found));
    assert(buffer.subrange(i, i + 4) == FRAME_START@);
    if i + 6 <= buffer.len() {
        let n = serial::le_value(buffer[i + 4], buffer[i + 5]) as u16;
        assert(serial::le_bytes(n) =~= seq![buffer[i + 4], buffer[i + 5]]);
        assert forall|j: int| 0 <= j < 4 implies buffer[i + j] == FRAME_START@[j] by {
            assert(buffer.subrange(i, i + 4)[j] == buffer[i + j]);
        }
        assert(buffer.subrange(i, i + 6) =~= FRAME_START@ + serial::le_bytes(n));
    }
}

/// The frames that a scan checks stand in the buffer, in order, in front of what it leaves.
#[verifier::spinoff_prover]
#[verifier::rlimit(60)]
proof fn lemma_scan(buffer: Seq<u8>, crc: spec_fn(Seq<u8>) -> u16) -> (result: (
    Seq<WireFrame>,
    Seq<int>,
))
    ensures
        ({
            let progress = serial::scanned(buffer, crc);
            let left = unsettled(progress.reader);
            &&& progress.frames == serial_laws::expected(result.0, crc)
            &&& serial_laws::sendable(result.0)
            &&& left.is_suffix_of(buffer)
            &&& in_order(buffer, result.0, result.1, 0, buffer.len() - left.len())
        }),
    decreases buffer.len(),
{
    let none = (Seq::<WireFrame>::empty(), Seq::<int>::empty());
    let progress = serial::scanned(buffer, crc);
    let left = unsettled(progress.reader);
    assert(serial_laws::expected(none.0, crc) =~= Seq::<CheckedFrame>::empty());
    match tinybuf::first_position(buffer, FRAME_START@) {
        None => {
            assert(buffer.subrange(0, buffer.len() as int) =~= buffer);
            none
        },
        Some(at) => {
            let i = at as int;
            lemma_header(buffer, i);
            let opened = buffer.skip(i);
            if opened.len() < 6 {
                assert(buffer.subrange(i, buffer.len() as int) =~= left);
                none
            } else {
                let n = serial::le_value(opened[4], opened[5]);
                let body = opened.skip(6);
                assert(body =~= buffer.skip(i + 6));
                assert(buffer.subrange(i + 6, i + 6 + body.len()) =~= body);
                if n > MAX_PAYLOAD_LEN {
                    let inner = lemma_scan(body, crc);
                    lemma_moved(buffer, i + 6, body, inner.0, inner.1, 0, body.len() - left.len());
                    lemma_suffix(buffer, body, left);
                    (inner.0, moved(inner.1, i + 6))
                } else if body.len() < n + CRC_LEN {
                    assert(buffer.subrange(i, buffer.len() as int) =~= left) by {
                        assert(opened =~= buffer.subrange(i, i + 6) + body);
                    }
                    none
                } else {
                    let size = n as int + 8;
                    let next = body.skip(n as int + CRC_LEN);
                    assert(next =~= buffer.skip(i + size));
                    assert(buffer.subrange(i + size, i + size + next.len()) =~= next);
                    let wire = lemma_frame_stands(buffer, i, n, crc);
                    let inner = lemma_scan(next, crc);
                    let to = next.len() - left.len();
                    lemma_moved(buffer, i + size, next, inner.0, inner.1, 0, to);
                    lemma_suffix(buffer, next, left);
                    let wires = seq![wire] + inner.0;
                    let behind = moved(inner.1, i + size);
                    lemma_joined(
                        buffer,
                        seq![wire],
                        seq![i],
                        inner.0,
                        behind,
                        0,
                        i + size,
                        buffer.len() - left.len(),
                    );
                    assert(progress.frames =~= serial_laws::expected(wires, crc));
                    (wires, seq![i] + behind)
                }
            }
        },
    }
}

/// The end of the end is an end.
proof fn lemma_suffix(all: Seq<u8>, part: Seq<u8>, left: Seq<u8>)
    requires
        part.len() <= all.len(),
        all.skip(all.len() - part.len()) == part,
        left.is_suffix_of(part),
    ensures
        left.is_suffix_of(all),
{
    let k = all.len() - part.len();
    assert(all.subrange(k, all.len() as int) =~= all.skip(k));
    assert(all.subrange(all.len() - left.len(), all.len() as int) =~= left) by {
        assert(part.subrange(part.len() - left.len(), part.len() as int) == left);
        assert(all.subrange(all.len() - left.len(), all.len() as int) =~= part.subrange(
            part.len() - left.len(),
            part.len() as int,
        ));
    }
}

/// The frames that one read makes a reader check stand in everything taken in, in order, between
/// what was settled before and what is unsettled afterwards.
proof fn lemma_read(
    past: Seq<u8>,
    reader: ReaderView,
    data: Seq<u8>,
    crc: spec_fn(Seq<u8>) -> u16,
) -> (result: (Seq<WireFrame>, Seq<int>))
    requires
        reader.wf(),
        reader.buffer.len() <= FRAME_BUFFER_LEN,
        data.len() <= USB_BUFFER_LEN,
        unsettled(reader).is_suffix_of(past),
    ensures
        ({
            let progress = serial::received(reader, data, crc);
            let left = unsettled(progress.reader);
            let now = past + data;
            &&& progress.frames == serial_laws::expected(result.0, crc)
            &&& serial_laws::sendable(result.0)
            &&& progress.reader.wf()
            &&& progress.reader.buffer.len() <= FRAME_BUFFER_LEN
            &&& left.is_suffix_of(now)
            &&& past.len() - unsettled(reader).len() <= now.len() - left.len()
            &&& in_order(
                now,
                result.0,
                result.1,
                past.len() - unsettled(reader).len(),
                now.len() - left.len(),
            )
        }),
{
    let now = past + data;
    let progress = serial::received(reader, data, crc);
    let left = unsettled(progress.reader);
    let buffer = tinybuf::pushed(reader.buffer, data, FRAME_BUFFER_LEN as nat);
    let from = past.len() - unsettled(reader).len();
    match reader.state {
        FrameState::Wait => {
            serial_laws::lemma_pushed_is_the_end(past, reader.buffer, data);
            let k = now.len() - buffer.len();
            assert(now.subrange(k, k + buffer.len()) =~= buffer);
            serial::lemma_scanned_wf(buffer, crc);
            let inner = lemma_scan(buffer, crc);
            let to = buffer.len() - left.len();
            lemma_moved(now, k, buffer, inner.0, inner.1, 0, to);
            lemma_suffix(now, buffer, left);
            lemma_widened(now, inner.0, moved(inner.1, k), k, to + k, from);
            (inner.0, moved(inner.1, k))
        },
        FrameState::Frame(n) => {
            serial_laws::law_no_loss_inside_a_frame(reader, data);
            let head = FRAME_START@ + serial::le_bytes(n as u16);
            assert(past.subrange(from, past.len() as int) == head + reader.buffer);
            assert(now.subrange(from, now.len() as int) =~= head + buffer) by {
                assert(now.subrange(from, now.len() as int) =~= past.subrange(
                    from,
                    past.len() as int,
                ) + data);
                assert((head + reader.buffer) + data =~= head + (reader.buffer + data));
            }
            if buffer.len() < n + CRC_LEN {
                let none = (Seq::<WireFrame>::empty(), Seq::<int>::empty());
                assert(serial_laws::expected(none.0, crc) =~= Seq::<CheckedFrame>::empty());
                none
            } else {
                assert(head.len() == 6);
                assert(now.subrange(from, from + 6) =~= head) by {
                    assert(now.subrange(from, from + 6) =~= now.subrange(
                        from,
                        now.len() as int,
                    ).take(6));
                    assert((head + buffer).take(6) =~= head);
                }
                assert(now.skip(from + 6) =~= buffer) by {
                    assert(now.skip(from + 6) =~= now.subrange(from, now.len() as int).skip(6));
                    assert((head + buffer).skip(6) =~= buffer);
                }
                let wire = lemma_frame_stands(now, from, n as nat, crc);
                assert(progress.frames =~= serial_laws::expected(seq![wire], crc));
                assert(now.subrange(now.len() - left.len(), now.len() as int) =~= left) by {
                    assert(left =~= now.skip(from + 8 + n));
                }
                (seq![wire], seq![from])
            }
        },
    }
}

/// Bounds may be further apart.
proof fn lemma_widened(
    all: Seq<u8>,
    wires: Seq<WireFrame>,
    positions: Seq<int>,
    from: int,
    to: int,
    lower: int,
)
    requires
        in_order(all, wires, positions, from, to),
        lower <= from,
    ensures
        in_order(all, wires, positions, lower, to),
{
}

/// The frames that a number of reads makes a reader check stand in everything taken in, in order.
proof fn lemma_reads(
    past: Seq<u8>,
    reader: ReaderView,
    reads: Seq<Seq<u8>>,
    crc: spec_fn(Seq<u8>) -> u16,
) -> (result: (Seq<WireFrame>, Seq<int>))
    requires
        reader.wf(),
        reader.buffer.len() <= FRAME_BUFFER_LEN,
        serial_laws::port_reads(reads),
        unsettled(reader).is_suffix_of(past),
    ensures
        ({
            let progress = serial_laws::received_all(reader, reads, crc);
            let all = past + serial_laws::joined(reads);
            let left = unsettled(progress.reader);
            &&& progress.frames == serial_laws::expected(result.0, crc)
            &&& serial_laws::sendable(result.0)
            &&& left.is_suffix_of(all)
            &&& past.len() - unsettled(reader).len() <= all.len() - left.len()
            &&& in_order(
                all,
                result.0,
                result.1,
                past.len() - unsettled(reader).len(),
                all.len() - left.len(),
            )
        }),
    decreases reads.len(),
{
    let all = past + serial_laws::joined(reads);
    if reads.len() == 0 {
        let none = (Seq::<WireFrame>::empty(), Seq::<int>::empty());
        assert(all =~= past);
        assert(serial_laws::expected(none.0, crc) =~= Seq::<CheckedFrame>::empty());
        none
    } else {
        let data = reads[0];
        let others = reads.drop_first();
        let now = past + data;
        assert(now + serial_laws::joined(others) =~= all);
        assert(data.len() <= USB_BUFFER_LEN);
        let first = serial::received(reader, data, crc);
        let here = lemma_read(past, reader, data, crc);
        assert(serial_laws::port_reads(others)) by {
            assert forall|i: int| 0 <= i < others.len() implies (#[trigger] others[i]).len()
                <= USB_BUFFER_LEN by {
                assert(others[i] == reads[i + 1]);
            }
        }
        let later = lemma_reads(now, first.reader, others, crc);
        let progress = serial_laws::received_all(reader, reads, crc);
        let from = past.len() - unsettled(reader).len();
        let middle = now.len() - unsettled(first.reader).len();
        let to = all.len() - unsettled(progress.reader).len();
        assert(all.subrange(0, now.len() as int) =~= now);
        lemma_moved(all, 0, now, here.0, here.1, from, middle);
        assert(moved(here.1, 0) =~= here.1);
        lemma_joined(all, here.0, here.1, later.0, later.1, from, middle, to);
        let wires = here.0 + later.0;
        assert(progress.frames =~= serial_laws::expected(wires, crc));
        assert(serial_laws::sendable(wires)) by {
            assert forall|i: int| 0 <= i < wires.len() implies (
            #[trigger] wires[i]).payload.len() <= MAX_PAYLOAD_LEN by {
                if i < here.0.len() {
                    assert(wires[i] == here.0[i]);
                } else {
                    assert(wires[i] == later.0[i - here.0.len()]);
                }
            }
        }
        (wires, here.1 + later.1)
    }
}

/// Everything that a reader ever checks stood on the wire, whole, in the order in which it was
/// checked, and no two frames shared a byte: whatever a new reader takes in, there are frames in
/// it, one for each check, each checked as what it is.
pub proof fn law_checked_frames_stood_on_the_wire(
    reads: Seq<Seq<u8>>,
    crc: spec_fn(Seq<u8>) -> u16,
)
    requires
        serial_laws::port_reads(reads),
    ensures
        ({
            let fresh = ReaderView { state: FrameState::Wait, buffer: Seq::empty() };
            let all = serial_laws::joined(reads);
            exists|wires: Seq<WireFrame>, positions: Seq<int>|
                {
                    &&& #[trigger] in_order(all, wires, positions, 0, all.len() as int)
                    &&& serial_laws::sendable(wires)
                    &&& serial_laws::received_all(fresh, reads, crc).frames
                        == serial_laws::expected(wires, crc)
                }
        }),
{
    let none = Seq::<u8>::empty();
    let fresh = ReaderView { state: FrameState::Wait, buffer: none };
    let all = serial_laws::joined(reads);
    assert(none + all =~= all);
    assert(none.subrange(0, 0) =~= none);
    let found = lemma_reads(none, fresh, reads, crc);
    assert(in_order(all, found.0, found.1, 0, all.len() as int));
}

/// Each valid frame's payload stands in `all` at its position with its checksum behind it, and each
/// position is at or behind the end of the part before it.
pub open spec fn delivered_in_order(
    all: Seq<u8>,
    frames: Seq<CheckedFrame>,
    positions: Seq<int>,
    crc: spec_fn(Seq<u8>) -> u16,
) -> bool {
    &&& positions.len() == frames.len()
    &&& forall|i: int|
        0 <= i < frames.len() && frames[i].valid ==> tinybuf::occurs_at(
            all,
            frames[i].payload + serial::le_bytes(crc(frames[i].payload)),
            #[trigger] positions[i],
        )
    &&& forall|i: int, j: int|
        0 <= i < j < frames.len() ==> (#[trigger] positions[i]) + frames[i].payload.len() + CRC_LEN
            <= (#[trigger] positions[j])
}

/// Whatever a new reader takes in, every payload that it ever delivers is no longer than the
/// longest allowed and stands there with its checksum behind it; these parts come in the order of
/// delivery and do not overlap.
pub proof fn law_deliveries_come_in_stream_order(
    reads: Seq<Seq<u8>>,
    crc: spec_fn(Seq<u8>) -> u16,
)
    requires
        serial_laws::port_reads(reads),
    ensures
        ({
            let fresh = ReaderView { state: FrameState::Wait, buffer: Seq::empty() };
            let frames = serial_laws::received_all(fresh, reads, crc).frames;
            &&& forall|i: int|
                0 <= i < frames.len() ==> (#[trigger] frames[i]).payload.len() <= MAX_PAYLOAD_LEN
            &&& exists|positions: Seq<int>|
                delivered_in_order(serial_laws::joined(reads), frames, positions, crc)
        }),
{
    let fresh = ReaderView { state: FrameState::Wait, buffer: Seq::empty() };
    let frames = serial_laws::received_all(fresh, reads, crc).frames;
    let all = serial_laws::joined(reads);
    law_checked_frames_stood_on_the_wire(reads, crc);
    let (wires, starts) = choose|wires: Seq<WireFrame>, positions: Seq<int>|
        {
            &&& #[trigger] in_order(all, wires, positions, 0, all.len() as int)
            &&& serial_laws::sendable(wires)
            &&& frames == serial_laws::expected(wires, crc)
        };
    let positions = moved(starts, 6);
    assert forall|i: int| 0 <= i < frames.len() implies (#[trigger] frames[i]).payload.len()
        <= MAX_PAYLOAD_LEN by {
        assert(frames[i].payload == wires[i].payload);
    }
    assert forall|i: int| 0 <= i < frames.len() && frames[i].valid implies tinybuf::occurs_at(
        all,
        frames[i].payload + serial::le_bytes(crc(frames[i].payload)),
        #[trigger] positions[i],
    ) by {
        let at = starts[i];
        let bytes = wires[i].bytes();
        let part = wires[i].body();
        assert(tinybuf::occurs_at(all, bytes, at));
        assert(bytes.skip(6) =~= part);
        assert(all.subrange(at + 6, at + 6 + part.len()) =~= all.subrange(
            at,
            at + bytes.len(),
        ).skip(6));
    }
    assert forall|i: int, j: int| 0 <= i < j < frames.len() implies (#[trigger] positions[i])
        + frames[i].payload.len() + CRC_LEN <= (#[trigger] positions[j]) by {
        assert(starts[i] + wires[i].bytes().len() <= starts[j]);
        assert(frames[i].payload == wires[i].payload);
        assert(wires[i].bytes().len() == wires[i].payload.len() + 8);
    }
    assert(delivered_in_order(all, frames, positions, crc));
}

} // verus!
