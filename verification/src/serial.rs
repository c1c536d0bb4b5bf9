//! Framing of payloads on a serial byte stream.
//!
//! ```text
//! Frame header ----------------------> |
//! Start               | Data len (u16) | Data        | CRC (u16)
//!                     | (excludes CRC) | (len bytes) |
//! 0xAA 0xCC 0xAA 0xCC | LEN_L LEN_H    | DATA...     | CRC_L CRC_H
//! ```
//!
//! The checksum is a parameter: both ends of a link pass the same 16-bit checksum function.

use crate::tinybuf;
use crate::tinybuf::Buffer;
use vstd::prelude::*;
use vstd::slice::slice_subrange;

verus! {

/// Bytes of a frame in front of its payload.
pub const FRAME_HEADER_LEN: usize = 6;

/// The four bytes that open a frame.
pub const FRAME_START: [u8; 4] = [0xaa, 0xcc, 0xaa, 0xcc];

/// Bytes of a frame behind its payload.
pub const CRC_LEN: usize = 2;

/// The longest frame: header, payload and checksum.
pub const MAX_FRAME_LEN: usize = 2048;

/// The longest payload.
pub const MAX_PAYLOAD_LEN: usize = MAX_FRAME_LEN - FRAME_HEADER_LEN - CRC_LEN;

/// The most bytes that one read of the serial port yields.
pub const USB_BUFFER_LEN: usize = 64;

/// Room for a whole frame and one read more.
pub const FRAME_BUFFER_LEN: usize = MAX_FRAME_LEN + USB_BUFFER_LEN;

/// `heapless::Vec`, the fixed-capacity vector that carries payloads.
#[verifier::external_type_specification]
#[verifier::external_body]
#[verifier::reject_recursive_types(T)]
pub struct ExHeaplessVec<T, const N: usize>(heapless::Vec<T, N>);

/// The bytes that a payload vector holds, in order.
pub uninterp spec fn payload_bytes(payload: heapless::Vec<u8, MAX_PAYLOAD_LEN>) -> Seq<u8>;

/// `heapless::Vec::try_from` on a slice: it succeeds exactly when the slice fits the capacity, and
/// the vector then holds the bytes of the slice.
#[verifier::external_body]
fn payload_from_slice(data: &[u8]) -> (result: Result<heapless::Vec<u8, MAX_PAYLOAD_LEN>, ()>)
    ensures
        result is Ok <==> data@.len() <= MAX_PAYLOAD_LEN,
        result matches Ok(payload) ==> payload_bytes(payload) == data@,
{
    heapless::Vec::try_from(data)
}

/// `heapless::Vec::as_slice`: the bytes held, never more than the capacity.
#[verifier::external_body]
fn payload_as_slice(payload: &heapless::Vec<u8, MAX_PAYLOAD_LEN>) -> (result: &[u8])
    ensures
        result@ == payload_bytes(*payload),
        result@.len() <= MAX_PAYLOAD_LEN,
{
    payload.as_slice()
}

/// `crc` is what the function `f` can return for a slice that holds `data`.
pub open spec fn gives<F: Fn(&[u8]) -> u16>(f: F, data: Seq<u8>, crc: u16) -> bool {
    exists|slice: &[u8]| slice@ == data && #[trigger] call_ensures(f, (slice,), crc)
}

/// `f` is a checksum: it accepts every slice, and one slice has one checksum.
pub open spec fn is_checksum<F: Fn(&[u8]) -> u16>(f: F) -> bool {
    &&& forall|slice: &[u8]| #[trigger] call_requires(f, (slice,))
    &&& forall|slice: &[u8], a: u16, b: u16| #[trigger]
        call_ensures(f, (slice,), a) && #[trigger] call_ensures(f, (slice,), b) ==> a == b
}

/// The checksum of `data` under `f`.
pub open spec fn checksum<F: Fn(&[u8]) -> u16>(f: F, data: Seq<u8>) -> u16 {
    choose|crc: u16| gives(f, data, crc)
}

/// `checksum` as a function of the data alone.
pub open spec fn checksum_fn<F: Fn(&[u8]) -> u16>(f: F) -> spec_fn(Seq<u8>) -> u16 {
    |data: Seq<u8>| checksum(f, data)
}

/// The two bytes of `x`, low byte first.
pub open spec fn le_bytes(x: u16) -> Seq<u8> {
    seq![(x % 256) as u8, (x / 256) as u8]
}

/// The number that two bytes stand for, low byte first.
pub open spec fn le_value(low: u8, high: u8) -> nat {
    (low + 256 * high) as nat
}

/// What the check of a completed frame found: its payload, and whether the checksum behind the
/// payload is the payload's own.
pub struct CheckedFrame {
    pub payload: Seq<u8>,
    pub valid: bool,
}

/// The check of a frame whose payload is the first `n` bytes of `body`.
pub open spec fn checked(body: Seq<u8>, n: nat, crc: spec_fn(Seq<u8>) -> u16) -> CheckedFrame {
    CheckedFrame {
        payload: body.take(n as int),
        valid: crc(body.take(n as int)) == le_value(body[n as int], body[n as int + 1]),
    }
}

/// What a reader reports of a frame it has completed.
pub enum FrameEvent {
    /// A payload whose checksum is right.
    Payload(heapless::Vec<u8, MAX_PAYLOAD_LEN>),
    /// A frame with a wrong checksum; it is dropped.
    CrcError,
}

impl FrameEvent {
    /// The event reports this check: the payload of a valid frame, an error for any other.
    pub open spec fn reports(self, frame: CheckedFrame) -> bool {
        match self {
            FrameEvent::Payload(payload) => frame.valid && payload_bytes(payload) == frame.payload,
            FrameEvent::CrcError => !frame.valid,
        }
    }
}

/// The events report these checks, one for one and in order.
pub open spec fn all_reported(events: Seq<FrameEvent>, frames: Seq<CheckedFrame>) -> bool {
    &&& events.len() == frames.len()
    &&& forall|i: int|
        0 <= i < events.len() ==> (#[trigger] events[i]).reports(frames[i])
}

/// Calls the checksum function.
fn compute<F: Fn(&[u8]) -> u16>(crc16: &F, data: &[u8]) -> (result: u16)
    requires
        is_checksum(*crc16),
    ensures
        result == checksum(*crc16, data@),
        gives(*crc16, data@, result),
        call_ensures(*crc16, (data,), result),
{
    let result: u16 = crc16(data);
    proof {
        let crc = checksum(*crc16, data@);
        assert(gives(*crc16, data@, result));
        assert(gives(*crc16, data@, crc));
        let slice = choose|slice: &[u8]|
            slice@ == data@ && #[trigger] call_ensures(*crc16, (slice,), crc);
        assert(slice =~= data);
    }
    result
}

/// The first six bytes of a frame.
pub struct FrameHeader([u8; FRAME_HEADER_LEN]);

impl View for FrameHeader {
    type V = Seq<u8>;

    closed spec fn view(&self) -> Seq<u8> {
        self.0@
    }
}

impl FrameHeader {
    /// The header at the front of the buffer: there is one when at least six bytes are held and
    /// they open with the start bytes. The buffer stays as it is.
    pub fn new_from_buffer<const N: usize>(buf: &mut Buffer<N>) -> (result: Option<Self>)
        ensures
            *final(buf) == *old(buf),
            result is Some <==> old(buf)@.len() >= FRAME_HEADER_LEN && tinybuf::occurs_at(
                old(buf)@,
                FRAME_START@,
                0,
            ),
            result matches Some(header) ==> header@ == old(buf)@.take(FRAME_HEADER_LEN as int),
            result is Some <==> {
                &&& old(buf)@.len() >= 6
                &&& old(buf)@[0] == 0xaa
                &&& old(buf)@[1] == 0xcc
                &&& old(buf)@[2] == 0xaa
                &&& old(buf)@[3] == 0xcc
            },
    {
        if buf.len() < FRAME_HEADER_LEN {
            return None;
        }
        let mut header: [u8; FRAME_HEADER_LEN] = [0u8; FRAME_HEADER_LEN];
        let copied: usize = buf.copy_to(&mut header);
        assert(header@ =~= buf@.take(FRAME_HEADER_LEN as int));
        let mut i: usize = 0;
        while i < 4
            invariant
                i <= 4,
                buf@.len() >= FRAME_HEADER_LEN,
                header@ == buf@.take(FRAME_HEADER_LEN as int),
                *buf == *old(buf),
                forall|j: int| 0 <= j < i ==> buf@[j] == FRAME_START@[j],
            decreases 4 - i,
        {
            assert(header@[i as int] == buf@[i as int]);
            if header[i] != FRAME_START[i] {
                assert(buf@.subrange(0, 4)[i as int] != FRAME_START@[i as int]);
                return None;
            }
            i += 1;
        }
        assert(buf@.subrange(0, 4) =~= FRAME_START@);
        assert(buf@[0] == FRAME_START@[0] && buf@[1] == FRAME_START@[1]);
        assert(buf@[2] == FRAME_START@[2] && buf@[3] == FRAME_START@[3]);
        Some(FrameHeader(header))
    }

    /// The payload length that the header announces.
    pub fn get_length(&self) -> (result: usize)
        ensures
            result == le_value(self@[4], self@[5]),
            result == self@[4] + 256 * self@[5],
            result <= u16::MAX,
    {
        self.0[4] as usize + 256 * (self.0[5] as usize)
    }
}

/// Completes a frame whose payload length is known and whose header is consumed. While the buffer
/// holds less than payload and checksum, nothing happens and there is no event. Otherwise the
/// payload is checked against the checksum behind it, both are consumed, and the event reports
/// the outcome.
pub fn process_frame<const N: usize, F: Fn(&[u8]) -> u16>(
    buf: &mut Buffer<N>,
    payload_len: usize,
    crc16: &F,
) -> (result: Option<FrameEvent>)
    requires
        is_checksum(*crc16),
        payload_len + CRC_LEN <= usize::MAX,
        payload_len <= MAX_PAYLOAD_LEN || old(buf)@.len() < payload_len + CRC_LEN || !checked(
            old(buf)@,
            payload_len as nat,
            checksum_fn(*crc16),
        ).valid,
    ensures
        result is Some <==> old(buf)@.len() >= payload_len + CRC_LEN,
        result is None ==> *final(buf) == *old(buf),
        result matches Some(event) ==> {
            let payload = old(buf)@.take(payload_len as int);
            &&& event.reports(checked(old(buf)@, payload_len as nat, checksum_fn(*crc16)))
            &&& gives(*crc16, payload, checksum(*crc16, payload))
            &&& final(buf)@ == old(buf)@.skip(payload_len + CRC_LEN)
        },
        result matches Some(event) ==> {
            let payload = old(buf)@.take(payload_len as int);
            let field = old(buf)@[payload_len as int] + 256 * old(buf)@[payload_len + 1];
            &&& event is Payload <==> exists|slice: &[u8]|
                slice@ == payload && #[trigger] call_ensures(*crc16, (slice,), field as u16)
            &&& event matches FrameEvent::Payload(delivered) ==> payload_bytes(delivered) == payload
        },
{
    if buf.len() < payload_len + CRC_LEN {
        return None;
    }
    let data = buf.as_slice();
    let payload = slice_subrange(data, 0, payload_len);
    assert(payload@ =~= buf@.take(payload_len as int));
    let announced: usize = data[payload_len] as usize + 256 * (data[payload_len + 1] as usize);
    let crc: u16 = compute(crc16, payload);
    proof {
        assert forall|slice: &[u8]|
            slice@ == payload@ && #[trigger] call_ensures(
                *crc16,
                (slice,),
                announced as u16,
            ) implies announced == crc by {
            assert(slice =~= payload);
        }
        assert(announced < 0x1_0000 && announced as u16 == announced);
        if crc == announced {
            assert(call_ensures(*crc16, (payload,), announced as u16));
        }
        let field = buf@[payload_len as int] + 256 * buf@[payload_len + 1];
        assert(field == announced && field as u16 == announced as u16);
    }
    let event = if crc as usize == announced {
        FrameEvent::Payload(payload_from_slice(payload).unwrap())
    } else {
        FrameEvent::CrcError
    };
    buf.advance(payload_len + CRC_LEN);
    Some(event)
}

/// A frame as it stands on the wire, with `crc` in its checksum field.
pub open spec fn framed(payload: Seq<u8>, crc: u16) -> Seq<u8> {
    FRAME_START@ + le_bytes(payload.len() as u16) + payload + le_bytes(crc)
}

/// Appends a slice to a vector.
fn append(out: &mut Vec<u8>, data: &[u8])
    ensures
        final(out)@ == old(out)@ + data@,
{
    let mut i: usize = 0;
    while i < data.len()
        invariant
            i <= data@.len(),
            out@ == old(out)@ + data@.take(i as int),
        decreases data@.len() - i,
    {
        out.push(data[i]);
        assert(data@.take(i + 1) =~= data@.take(i as int).push(data@[i as int]));
        i += 1;
    }
    assert(data@.take(i as int) =~= data@);
}

/// Appends the two bytes of `x`, low byte first.
fn append_le(out: &mut Vec<u8>, x: u16)
    ensures
        final(out)@ == old(out)@ + le_bytes(x),
{
    out.push((x % 256) as u8);
    out.push((x / 256) as u8);
    assert(out@ =~= old(out)@ + le_bytes(x));
}

/// The bytes that a writer sends for one message: start marker, length, data and checksum.
pub fn encode_frame<F: Fn(&[u8]) -> u16>(
    message: &heapless::Vec<u8, MAX_PAYLOAD_LEN>,
    crc16: &F,
) -> (frame: Vec<u8>)
    requires
        is_checksum(*crc16),
    ensures
        frame@ == framed(payload_bytes(*message), checksum(*crc16, payload_bytes(*message))),
        frame@.len() <= MAX_FRAME_LEN,
        gives(*crc16, payload_bytes(*message), checksum(*crc16, payload_bytes(*message))),
        ({
            let payload = payload_bytes(*message);
            let n = payload.len() as int;
            &&& frame@.len() == n + 8
            &&& frame@.take(4) == seq![0xaau8, 0xcc, 0xaa, 0xcc]
            &&& frame@[4] + 256 * frame@[5] == n
            &&& frame@.subrange(6, n + 6) == payload
            &&& exists|slice: &[u8]|
                slice@ == payload && #[trigger] call_ensures(
                    *crc16,
                    (slice,),
                    (frame@[n + 6] + 256 * frame@[n + 7]) as u16,
                )
        }),
{
    let data = payload_as_slice(message);
    let crc: u16 = compute(crc16, data);
    let mut frame: Vec<u8> = Vec::new();
    append(&mut frame, &FRAME_START);
    append_le(&mut frame, data.len() as u16);
    append(&mut frame, data);
    append_le(&mut frame, crc);
    assert(frame@ =~= framed(data@, crc));
    proof {
        let n = data@.len() as int;
        assert(frame@.take(4) =~= seq![0xaau8, 0xcc, 0xaa, 0xcc]);
        assert(frame@.subrange(6, n + 6) =~= data@);
        assert((frame@[n + 6] + 256 * frame@[n + 7]) as u16 == crc);
    }
    frame
}

/// Where a reader stands in the stream.
#[derive(Debug, PartialEq, Eq)]
pub enum FrameState {
    /// Looking for the start of a frame.
    Wait,
    /// Inside a frame with a payload of this length; its header is consumed.
    Frame(usize),
}

/// A reader as a mathematical value: its state and the bytes it has buffered.
pub struct ReaderView {
    pub state: FrameState,
    pub buffer: Seq<u8>,
}

impl ReaderView {
    /// A reader inside a frame expects no more than the longest payload, and still lacks part of
    /// that payload or its checksum.
    pub open spec fn wf(self) -> bool {
        self.state matches FrameState::Frame(n) ==> {
            &&& n <= MAX_PAYLOAD_LEN
            &&& self.buffer.len() < n + CRC_LEN
        }
    }
}

/// What a reader does with input: where it stands afterwards, and the frames it has checked.
pub struct Progress {
    pub reader: ReaderView,
    pub frames: Seq<CheckedFrame>,
}

/// The progress with `frame` checked before everything else.
pub open spec fn preceded(frame: CheckedFrame, progress: Progress) -> Progress {
    Progress { reader: progress.reader, frames: seq![frame] + progress.frames }
}

/// A reader that has come to a stop and waits for more bytes.
pub open spec fn paused(state: FrameState, buffer: Seq<u8>) -> Progress {
    Progress { reader: ReaderView { state, buffer }, frames: Seq::empty() }
}

/// Takes frames off the front of `buffer` until the next one is not all there.
///
/// Bytes in front of a start marker are dropped. A header that announces too long a payload is
/// dropped alone: how much of the buffer belongs to it is unknown. A payload that is not all
/// there leaves the reader inside that frame, whatever bytes of it are there.
pub open spec fn scanned(buffer: Seq<u8>, crc: spec_fn(Seq<u8>) -> u16) -> Progress
    decreases buffer.len(),
{
    match tinybuf::first_position(buffer, FRAME_START@) {
        None => paused(FrameState::Wait, buffer),
        Some(i) => {
            let opened = buffer.skip(i as int);
            if i > buffer.len() || opened.len() < FRAME_HEADER_LEN {
                paused(FrameState::Wait, opened)
            } else {
                let n = le_value(opened[4], opened[5]);
                let body = opened.skip(FRAME_HEADER_LEN as int);
                if n > MAX_PAYLOAD_LEN {
                    scanned(body, crc)
                } else if body.len() < n + CRC_LEN {
                    paused(FrameState::Frame(n as usize), body)
                } else {
                    preceded(
                        checked(body, n, crc),
                        scanned(body.skip(n as int + CRC_LEN), crc),
                    )
                }
            }
        },
    }
}

/// What a reader does with the bytes of one read.
pub open spec fn received(
    reader: ReaderView,
    data: Seq<u8>,
    crc: spec_fn(Seq<u8>) -> u16,
) -> Progress {
    let buffer = tinybuf::pushed(reader.buffer, data, FRAME_BUFFER_LEN as nat);
    match reader.state {
        FrameState::Wait => scanned(buffer, crc),
        FrameState::Frame(n) => if buffer.len() < n + CRC_LEN {
            paused(reader.state, buffer)
        } else {
            Progress {
                reader: ReaderView { state: FrameState::Wait, buffer: buffer.skip(n + CRC_LEN) },
                frames: seq![checked(buffer, n as nat, crc)],
            }
        },
    }
}

/// A scan leaves a reader that is well formed.
pub proof fn lemma_scanned_wf(buffer: Seq<u8>, crc: spec_fn(Seq<u8>) -> u16)
    ensures
        scanned(buffer, crc).reader.wf(),
    decreases buffer.len(),
{
    if let Some(i) = tinybuf::first_position(buffer, FRAME_START@) {
        let opened = buffer.skip(i as int);
        if i <= buffer.len() && opened.len() >= FRAME_HEADER_LEN {
            let n = le_value(opened[4], opened[5]);
            let body = opened.skip(FRAME_HEADER_LEN as int);
            if n > MAX_PAYLOAD_LEN {
                lemma_scanned_wf(body, crc);
            } else if body.len() >= n + CRC_LEN {
                lemma_scanned_wf(body.skip(n as int + CRC_LEN), crc);
            }
        }
    }
}

/// Every check of these frames was made with a checksum that the function gave.
pub open spec fn all_computed<F: Fn(&[u8]) -> u16>(f: F, frames: Seq<CheckedFrame>) -> bool {
    forall|i: int|
        0 <= i < frames.len() ==> gives(
            f,
            (#[trigger] frames[i]).payload,
            checksum(f, frames[i].payload),
        )
}

/// Takes payloads out of a serial byte stream.
pub struct FrameReader {
    state: FrameState,
    buf: Buffer<FRAME_BUFFER_LEN>,
}

impl View for FrameReader {
    type V = ReaderView;

    closed spec fn view(&self) -> ReaderView {
        ReaderView { state: self.state, buffer: self.buf@ }
    }
}

impl FrameReader {
    /// A reader that waits for a frame, with nothing buffered.
    pub fn new() -> (result: Self)
        ensures
            result@ == (ReaderView { state: FrameState::Wait, buffer: Seq::empty() }),
            result@.wf(),
    {
        FrameReader { state: FrameState::Wait, buf: Buffer::new() }
    }

    /// Takes in the bytes of one read and reports the frames that they complete.
    pub fn receive<F: Fn(&[u8]) -> u16>(
        &mut self,
        data: &[u8],
        crc16: &F,
    ) -> (events: Vec<FrameEvent>)
        requires
            old(self)@.wf(),
            is_checksum(*crc16),
            data@.len() <= FRAME_BUFFER_LEN,
        ensures
            final(self)@.wf(),
            ({
                let progress = received(old(self)@, data@, checksum_fn(*crc16));
                &&& final(self)@ == progress.reader
                &&& all_reported(events@, progress.frames)
                &&& all_computed(*crc16, progress.frames)
            }),
            ({
                let frames = received(old(self)@, data@, checksum_fn(*crc16)).frames;
                &&& events@.len() == frames.len()
                &&& forall|i: int|
                    0 <= i < frames.len() ==> match #[trigger] events@[i] {
                        FrameEvent::Payload(payload) => frames[i].valid && payload_bytes(payload)
                            == frames[i].payload,
                        FrameEvent::CrcError => !frames[i].valid,
                    }
            }),
            forall|i: int, slice: &[u8], crc: u16|
                #![trigger received(old(self)@, data@, checksum_fn(*crc16)).frames[i], call_ensures(
                    *crc16,
                    (slice,),
                    crc,
                )]
                0 <= i < events@.len() && slice@ == received(
                    old(self)@,
                    data@,
                    checksum_fn(*crc16),
                ).frames[i].payload && call_ensures(*crc16, (slice,), crc) ==> crc == checksum_fn(
                    *crc16,
                )(slice@),
    {
        self.buf.push(data).unwrap();
        let events: Vec<FrameEvent> = match self.state {
            FrameState::Wait => {
                proof {
                    lemma_scanned_wf(self@.buffer, checksum_fn(*crc16));
                }
                self.scan(crc16)
            },
            FrameState::Frame(n) => {
                let mut events: Vec<FrameEvent> = Vec::new();
                if let Some(event) = process_frame(&mut self.buf, n, crc16) {
                    events.push(event);
                    self.state = FrameState::Wait;
                }
                events
            },
        };
        proof {
            let crc = checksum_fn(*crc16);
            let frames = received(old(self)@, data@, crc).frames;
            assert forall|i: int, slice: &[u8], c: u16|
                #![trigger frames[i], call_ensures(*crc16, (slice,), c)]
                0 <= i < events@.len() && slice@ == frames[i].payload && call_ensures(
                    *crc16,
                    (slice,),
                    c,
                ) implies c == crc(slice@) by {
                let known = checksum(*crc16, slice@);
                assert(gives(*crc16, frames[i].payload, known));
                let other = choose|other: &[u8]|
                    other@ == slice@ && #[trigger] call_ensures(*crc16, (other,), known);
                assert(other =~= slice);
            }
            assert forall|i: int| 0 <= i < frames.len() implies match #[trigger] events@[i] {
                FrameEvent::Payload(payload) => frames[i].valid && payload_bytes(payload)
                    == frames[i].payload,
                FrameEvent::CrcError => !frames[i].valid,
            } by {
                assert(events@[i].reports(frames[i]));
            }
        }
        events
    }

    /// Takes frames off the front of the buffer until the next one is not all there.
    fn scan<F: Fn(&[u8]) -> u16>(&mut self, crc16: &F) -> (events: Vec<FrameEvent>)
        requires
            is_checksum(*crc16),
            old(self)@.state is Wait,
        ensures
            ({
                let progress = scanned(old(self)@.buffer, checksum_fn(*crc16));
                &&& final(self)@ == progress.reader
                &&& all_reported(events@, progress.frames)
                &&& all_computed(*crc16, progress.frames)
            }),
    {
        let mut events: Vec<FrameEvent> = Vec::new();
        let ghost crc = checksum_fn(*crc16);
        let ghost whole = scanned(self@.buffer, crc);
        let ghost mut frames: Seq<CheckedFrame> = Seq::empty();
        loop
            invariant_except_break
                self@.state is Wait,
                whole.reader == scanned(self@.buffer, crc).reader,
                whole.frames == frames + scanned(self@.buffer, crc).frames,
            invariant
                is_checksum(*crc16),
                crc == checksum_fn(*crc16),
                all_reported(events@, frames),
                all_computed(*crc16, frames),
            ensures
                whole.reader == self@,
                whole.frames == frames,
            decreases self@.buffer.len(),
        {
            let ghost buffer = self@.buffer;
            match self.buf.find(&FRAME_START) {
                None => {
                    break ;
                },
                Some(i) => {
                    self.buf.advance(i);
                    let ghost opened = self@.buffer;
                    assert(opened.subrange(0, 4) =~= buffer.subrange(i as int, i + 4));
                    match FrameHeader::new_from_buffer(&mut self.buf) {
                        None => {
                            break ;
                        },
                        Some(header) => {
                            self.buf.advance(FRAME_HEADER_LEN);
                            let n: usize = header.get_length();
                            let ghost body = self@.buffer;
                            if n <= MAX_PAYLOAD_LEN {
                                match process_frame(&mut self.buf, n, crc16) {
                                    Some(event) => {
                                        events.push(event);
                                        proof {
                                            let frame = checked(body, n as nat, crc);
                                            let rest = scanned(self@.buffer, crc).frames;
                                            assert(frames + (seq![frame] + rest) =~= frames.push(
                                                frame,
                                            ) + rest);
                                            frames = frames.push(frame);
                                        }
                                    },
                                    None => {
                                        self.state = FrameState::Frame(n);
                                        break ;
                                    },
                                }
                            }
                        },
                    }
                },
            }
        }
        events
    }
}

} // verus!
