//! The AHT20 temperature and humidity sensor.

use crate::bus;
use crate::bus::{Op, Outcome, Session};
use crate::bus_laws;
use vstd::prelude::*;
use vstd::slice::slice_subrange;

verus! {

/// Why a sensor operation failed.
#[derive(Debug, PartialEq, Eq, Structural)]
pub enum Aht20Error {
    /// The bus reported an error.
    I2cError,
    /// The reading's checksum is wrong.
    CrcError,
}

/// A reading as the sensor sends it: two 20-bit numbers.
#[derive(Clone, Copy, Debug, PartialEq, Eq, Structural)]
pub struct Aht20Raw {
    pub temp: u32,
    pub rh: u32,
}

/// A checksum register after one more message bit: it moves up by one, and the polynomial
/// x^8 + x^5 + x^4 + 1 is taken off where the bit that falls out differs from the message bit.
pub open spec fn crc8_bit(crc: u8, bit: bool) -> u8 {
    if (crc & 0x80 != 0) != bit {
        (crc << 1) ^ 0x31
    } else {
        crc << 1
    }
}

/// The `k`-th bit of a byte, counted from the highest.
pub open spec fn bit_of(byte: u8, k: u8) -> bool {
    byte & (0x80u8 >> k) != 0
}

/// A checksum register after the `k` highest bits of a byte.
pub open spec fn crc8_bits(crc: u8, byte: u8, k: nat) -> u8
    decreases k,
{
    if k == 0 {
        crc
    } else {
        crc8_bit(crc8_bits(crc, byte, (k - 1) as nat), bit_of(byte, (k - 1) as u8))
    }
}

/// The CRC-8 of `data`: the register starts full of ones and takes in all bits, the highest of each
/// byte first.
pub open spec fn crc8_of(data: Seq<u8>) -> u8
    decreases data.len(),
{
    if data.len() == 0 {
        0xff
    } else {
        crc8_bits(crc8_of(data.drop_last()), data.last(), 8)
    }
}

/// The CRC-8 of `data`.
pub fn crc8(data: &[u8]) -> (result: u8)
    ensures
        result == crc8_of(data@),
{
    let mut crc: u8 = 0xff;
    let mut i: usize = 0;
    assert(data@.take(0) =~= Seq::<u8>::empty());
    while i < data.len()
        invariant
            i <= data@.len(),
            crc == crc8_of(data@.take(i as int)),
        decreases data@.len() - i,
    {
        let byte: u8 = data[i];
        let ghost start = crc;
        crc = crc ^ byte;
        assert(crc == start ^ (byte << 0u8)) by (bit_vector)
            requires
                crc == start ^ byte,
        ;
        let mut k: u8 = 0;
        while k < 8
            invariant
                k <= 8,
                crc == crc8_bits(start, byte, k as nat) ^ (byte << k),
            decreases 8 - k,
        {
            let ghost register = crc8_bits(start, byte, k as nat);
            let ghost before = crc;
            crc = if crc & 0x80 != 0 {
                (crc << 1) ^ 0x31
            } else {
                crc << 1
            };
            assert(crc == crc8_bit(register, bit_of(byte, k)) ^ (byte << ((k + 1) as u8)))
                by (bit_vector)
                requires
                    k < 8,
                    before == register ^ (byte << k),
                    crc == if before & 0x80 != 0 {
                        (before << 1) ^ 0x31
                    } else {
                        before << 1
                    },
            ;
            k += 1;
        }
        assert(crc == crc8_bits(start, byte, 8)) by {
            let register = crc8_bits(start, byte, 8);
            assert(register ^ (byte << 8u8) == register) by (bit_vector);
        }
        assert(data@.take(i + 1).drop_last() =~= data@.take(i as int));
        i += 1;
    }
    assert(data@.take(i as int) =~= data@);
    crc
}

/// The operations that bring the sensor up: reset, then normal mode with checksums, with the time
/// that each takes.
pub open spec fn init_ops() -> Seq<bus::OpView> {
    seq![
        bus::OpView::Write(seq![0xBAu8]),
        bus::OpView::Delay(40),
        bus::OpView::Write(seq![0xBEu8, 0x08, 0x00]),
        bus::OpView::Delay(10),
    ]
}

/// The operations of a reading: start a measurement, wait until the busy bit of the status byte is
/// clear, and fetch status, five data bytes and a checksum.
pub open spec fn read_ops() -> Seq<bus::OpView> {
    seq![
        bus::OpView::Write(seq![0xACu8, 0x33, 0x00]),
        bus::OpView::Poll { register: None, mask: 0x80, pause: 10 },
        bus::OpView::Fetch { register: None, len: 7 },
    ]
}

/// What seven bytes from the sensor say: nothing when the last is not the checksum of the others;
/// otherwise 20 bits of humidity followed by 20 bits of temperature.
pub open spec fn decoded(reply: Seq<u8>) -> Result<Aht20Raw, Aht20Error> {
    if crc8_of(reply.take(6)) != reply[6] {
        Err(Aht20Error::CrcError)
    } else {
        Ok(
            Aht20Raw {
                rh: (reply[1] * 4096 + reply[2] * 16 + reply[3] / 16) as u32,
                temp: (reply[3] % 16 * 65536 + reply[4] * 256 + reply[5]) as u32,
            },
        )
    }
}

/// Checks and decodes seven bytes from the sensor.
pub fn decode(reply: &[u8]) -> (result: Result<Aht20Raw, Aht20Error>)
    requires
        reply@.len() == 7,
    ensures
        result == decoded(reply@),
        result is Ok <==> crc8_of(reply@.take(6)) == reply@[6],
        result matches Err(error) ==> error is CrcError,
        result matches Ok(raw) ==> {
            &&& raw.temp < 0x10_0000
            &&& raw.rh < 0x10_0000
            &&& raw.rh * 0x10_0000 + raw.temp == reply@[1] * 0x1_0000_0000 + reply@[2] * 0x100_0000
                + reply@[3] * 0x1_0000 + reply@[4] * 0x100 + reply@[5]
        },
{
    let data = slice_subrange(reply, 0, 6);
    assert(data@ =~= reply@.take(6));
    if crc8(data) != reply[6] {
        return Err(Aht20Error::CrcError);
    }
    let b1: u8 = reply[1];
    let b2: u8 = reply[2];
    let b3: u8 = reply[3];
    let b4: u8 = reply[4];
    let b5: u8 = reply[5];
    let rh: u32 = ((b1 as u32) << 12) | ((b2 as u32) << 4) | ((b3 as u32) >> 4);
    let temp: u32 = (((b3 as u32) & 0x0F) << 16) | ((b4 as u32) << 8) | (b5 as u32);
    assert(rh == b1 * 4096 + b2 * 16 + b3 / 16) by (bit_vector)
        requires
            rh == ((b1 as u32) << 12) | ((b2 as u32) << 4) | ((b3 as u32) >> 4),
    ;
    assert(temp == b3 % 16 * 65536 + b4 * 256 + b5) by (bit_vector)
        requires
            temp == (((b3 as u32) & 0x0F) << 16) | ((b4 as u32) << 8) | (b5 as u32),
    ;
    Ok(Aht20Raw { temp, rh })
}

/// An accepted reply holds 40 bits behind its first byte, highest bits first: the two decoded
/// numbers, 20 bits each and humidity first, are exactly these bits. A reply is accepted exactly
/// when its last byte is the checksum of the others.
pub proof fn law_decoded_numbers_are_the_data_bits(reply: Seq<u8>)
    requires
        reply.len() == 7,
    ensures
        decoded(reply) is Ok <==> crc8_of(reply.take(6)) == reply[6],
        decoded(reply) matches Err(error) ==> error is CrcError,
        decoded(reply) matches Ok(raw) ==> {
            &&& raw.temp < 0x10_0000
            &&& raw.rh < 0x10_0000
            &&& raw.rh * 0x10_0000 + raw.temp == reply[1] * 0x1_0000_0000 + reply[2] * 0x100_0000
                + reply[3] * 0x1_0000 + reply[4] * 0x100 + reply[5]
        },
{
}

/// Of two accepted replies, the one whose data bits are the larger number by `more` reads higher by
/// as much, counting humidity in units of the whole temperature range. So one more in the last byte
/// is one more of temperature, and one more in the byte before it is 256 more.
pub proof fn law_readings_differ_as_their_bytes_do(a: Seq<u8>, b: Seq<u8>)
    requires
        a.len() == 7,
        b.len() == 7,
        decoded(a) is Ok,
        decoded(b) is Ok,
    ensures
        ({
            let x = decoded(a)->Ok_0;
            let y = decoded(b)->Ok_0;
            (y.rh - x.rh) * 0x10_0000 + (y.temp - x.temp) == (b[1] - a[1]) * 0x1_0000_0000 + (b[2]
                - a[2]) * 0x100_0000 + (b[3] - a[3]) * 0x1_0000 + (b[4] - a[4]) * 0x100 + (b[5]
                - a[5])
        }),
{
    law_decoded_numbers_are_the_data_bits(a);
    law_decoded_numbers_are_the_data_bits(b);
}

/// A sensor at an address on the bus.
pub struct Aht20 {
    address: u8,
}

impl Aht20 {
    /// The bus address of the sensor.
    pub closed spec fn address(&self) -> u8 {
        self.address
    }

    /// The sensor at this address.
    pub fn new(address: u8) -> (result: Self)
        ensures
            result.address() == address,
    {
        Aht20 { address }
    }

    /// The conversation that brings the sensor up.
    pub fn init(&self) -> (result: Session)
        ensures
            result@ == bus::SessionView::start(self.address(), init_ops()),
            result@.wf(),
            result@.address == self.address(),
            result@.ops == seq![
                bus::OpView::Write(seq![0xBAu8]),
                bus::OpView::Delay(40),
                bus::OpView::Write(seq![0xBEu8, 0x08, 0x00]),
                bus::OpView::Delay(10),
            ],
    {
        let reset: Vec<u8> = vec![0xBA];
        let normal: Vec<u8> = vec![0xBE, 0x08, 0x00];
        assert(reset@ =~= seq![0xBAu8] && normal@ =~= seq![0xBEu8, 0x08, 0x00]);
        let ops: Vec<Op> = vec![Op::Write(reset), Op::Delay(40), Op::Write(normal), Op::Delay(10)];
        assert(bus::op_views(ops@) =~= init_ops());
        Session::new(self.address, ops)
    }

    /// What came of bringing the sensor up.
    pub fn init_result(session: &Session) -> (result: Result<(), Aht20Error>)
        requires
            session@.wf(),
            session@.ops == init_ops(),
            session@.status is Finished,
        ensures
            result == if session@.status == bus::Status::Finished(Outcome::Failed) {
                Err(Aht20Error::I2cError)
            } else {
                Ok(())
            },
    {
        match session.outcome() {
            Some(Outcome::Failed) => Err(Aht20Error::I2cError),
            _ => Ok(()),
        }
    }

    /// The conversation of one reading.
    pub fn read(&self) -> (result: Session)
        ensures
            result@ == bus::SessionView::start(self.address(), read_ops()),
            result@.wf(),
            result@.address == self.address(),
            result@.ops == seq![
                bus::OpView::Write(seq![0xACu8, 0x33, 0x00]),
                bus::OpView::Poll { register: None, mask: 0x80, pause: 10 },
                bus::OpView::Fetch { register: None, len: 7 },
            ],
    {
        let trigger: Vec<u8> = vec![0xAC, 0x33, 0x00];
        assert(trigger@ =~= seq![0xACu8, 0x33, 0x00]);
        let ops: Vec<Op> = vec![
            Op::Write(trigger),
            Op::Poll { register: None, mask: 0x80, pause: 10 },
            Op::Fetch { register: None, len: 7 },
        ];
        assert(bus::op_views(ops@) =~= read_ops());
        Session::new(self.address, ops)
    }

    /// What came of a reading.
    pub fn read_result(session: &Session) -> (result: Result<Aht20Raw, Aht20Error>)
        requires
            session@.wf(),
            session@.ops == read_ops(),
            session@.status is Finished,
        ensures
            result == if session@.status == bus::Status::Finished(Outcome::Failed) {
                Err(Aht20Error::I2cError)
            } else {
                decoded(session@.fetched[0])
            },
            !(session@.status == bus::Status::Finished(Outcome::Failed)) ==> session@.fetched.len()
                == 1 && session@.fetched[0].len() == 7,
    {
        match session.outcome() {
            Some(Outcome::Failed) => Err(Aht20Error::I2cError),
            _ => {
                let fetched = session.fetched();
                proof {
                    lemma_read_fetches();
                    bus::lemma_fetched(session@);
                    assert(forall|i: int| 0 <= i < 3 ==> !(read_ops()[i] is Halt));
                    assert(session@.fetched[0] == fetched@[0]@);
                }
                decode(fetched[0].as_slice())
            },
        }
    }
}

/// A reading fetches seven bytes once.
proof fn lemma_read_fetches()
    ensures
        bus::fetch_lens(read_ops()) == seq![7nat],
{
    let ops = read_ops();
    reveal_with_fuel(bus::fetch_lens, 4);
    assert(bus::fetch_lens(ops) =~= seq![7nat]);
}

/// A register after one empty message bit.
spec fn crc8_shift(crc: u8) -> u8 {
    crc8_bit(crc, false)
}

/// Taking in a byte is eight shifts of register and byte together.
proof fn lemma_byte_is_shifts(crc: u8, byte: u8)
    ensures
        crc8_bits(crc, byte, 8) == crc8_shift(crc8_shift(crc8_shift(crc8_shift(crc8_shift(
            crc8_shift(crc8_shift(crc8_shift(crc ^ byte)))))))),
{
    reveal_with_fuel(crc8_bits, 9);
    let b = byte;
    let c1 = crc8_bits(crc, b, 1);
    let c2 = crc8_bits(crc, b, 2);
    let c3 = crc8_bits(crc, b, 3);
    let c4 = crc8_bits(crc, b, 4);
    let c5 = crc8_bits(crc, b, 5);
    let c6 = crc8_bits(crc, b, 6);
    let c7 = crc8_bits(crc, b, 7);
    let c8 = crc8_bits(crc, b, 8);
    lemma_shift_step(crc, b, 0);
    lemma_shift_step(c1, b, 1);
    lemma_shift_step(c2, b, 2);
    lemma_shift_step(c3, b, 3);
    lemma_shift_step(c4, b, 4);
    lemma_shift_step(c5, b, 5);
    lemma_shift_step(c6, b, 6);
    lemma_shift_step(c7, b, 7);
    assert(b << 0u8 == b) by (bit_vector);
    assert(c8 ^ (b << 8u8) == c8) by (bit_vector);
}

/// One message bit, with the rest of the byte kept in the register.
proof fn lemma_shift_step(crc: u8, byte: u8, k: u8)
    requires
        k < 8,
    ensures
        crc8_shift(crc ^ (byte << k)) == crc8_bit(crc, bit_of(byte, k)) ^ (byte << ((k + 1) as u8)),
{
    assert(crc8_bit(crc ^ (byte << k), false) == crc8_bit(crc, bit_of(byte, k)) ^ (byte << ((k
        + 1) as u8))) by (bit_vector)
        requires
            k < 8,
    ;
}

/// A shift loses nothing.
proof fn lemma_shift_injective(a: u8, b: u8)
    requires
        crc8_shift(a) == crc8_shift(b),
    ensures
        a == b,
{
    assert(crc8_bit(a, false) == crc8_bit(b, false) ==> a == b) by (bit_vector);
}

/// Different registers stay different through equal bytes, and equal registers become different
/// through different bytes.
proof fn lemma_byte_injective(crc_a: u8, a: u8, crc_b: u8, b: u8)
    requires
        crc8_bits(crc_a, a, 8) == crc8_bits(crc_b, b, 8),
    ensures
        crc_a == crc_b <==> a == b,
{
    lemma_byte_is_shifts(crc_a, a);
    lemma_byte_is_shifts(crc_b, b);
    let x = crc_a ^ a;
    let y = crc_b ^ b;
    let x1 = crc8_shift(x);
    let y1 = crc8_shift(y);
    let x2 = crc8_shift(x1);
    let y2 = crc8_shift(y1);
    let x3 = crc8_shift(x2);
    let y3 = crc8_shift(y2);
    let x4 = crc8_shift(x3);
    let y4 = crc8_shift(y3);
    let x5 = crc8_shift(x4);
    let y5 = crc8_shift(y4);
    let x6 = crc8_shift(x5);
    let y6 = crc8_shift(y5);
    let x7 = crc8_shift(x6);
    let y7 = crc8_shift(y6);
    lemma_shift_injective(x7, y7);
    lemma_shift_injective(x6, y6);
    lemma_shift_injective(x5, y5);
    lemma_shift_injective(x4, y4);
    lemma_shift_injective(x3, y3);
    lemma_shift_injective(x2, y2);
    lemma_shift_injective(x1, y1);
    lemma_shift_injective(x, y);
    assert(crc_a ^ a == crc_b ^ b ==> (crc_a == crc_b <==> a == b)) by (bit_vector);
}

/// Every change of a single byte changes the checksum.
pub proof fn law_crc8_detects_one_byte(data: Seq<u8>, i: int, byte: u8)
    requires
        0 <= i < data.len(),
        byte != data[i],
    ensures
        crc8_of(data.update(i, byte)) != crc8_of(data),
    decreases data.len(),
{
    let other = data.update(i, byte);
    if i == data.len() - 1 {
        assert(other.drop_last() =~= data.drop_last());
        if crc8_of(other) == crc8_of(data) {
            let crc = crc8_of(data.drop_last());
            lemma_byte_injective(crc, byte, crc, data[i]);
        }
    } else {
        assert(other.drop_last() =~= data.drop_last().update(i, byte));
        law_crc8_detects_one_byte(data.drop_last(), i, byte);
        if crc8_of(other) == crc8_of(data) {
            lemma_byte_injective(
                crc8_of(other.drop_last()),
                data.last(),
                crc8_of(data.drop_last()),
                data.last(),
            );
        }
    }
}

/// A message with its own checksum behind it has checksum zero.
pub proof fn law_crc8_of_checked_message(data: Seq<u8>)
    ensures
        crc8_of(data.push(crc8_of(data))) == 0,
{
    let crc = crc8_of(data);
    assert(data.push(crc).drop_last() =~= data);
    lemma_byte_is_shifts(crc, crc);
    assert(crc ^ crc == 0) by (bit_vector);
    assert(crc8_bit(0, false) == 0) by (bit_vector);
}

/// A reply that was damaged in one byte is never taken for a reading.
pub proof fn law_damaged_reply_is_refused(reply: Seq<u8>, i: int, byte: u8)
    requires
        reply.len() == 7,
        decoded(reply) is Ok,
        0 <= i < 7,
        byte != reply[i],
    ensures
        decoded(reply.update(i, byte)) == Err::<Aht20Raw, Aht20Error>(Aht20Error::CrcError),
{
    let other = reply.update(i, byte);
    if i < 6 {
        assert(other.take(6) =~= reply.take(6).update(i, byte));
        law_crc8_detects_one_byte(reply.take(6), i, byte);
    } else {
        assert(other.take(6) =~= reply.take(6));
    }
}

/// Bringing the sensor up is four requests, always in this order; a conversation that meets no bus
/// error makes all of them.
pub proof fn law_init_traffic(address: u8, replies: Seq<bus::ReplyView>)
    requires
        bus_laws::all_fit(bus::SessionView::start(address, init_ops()), replies),
    ensures
        ({
            let session = bus::SessionView::start(address, init_ops());
            let requests = bus_laws::issued(session, replies);
            let whole = seq![
                bus::RequestView::Write { address, bytes: seq![0xBAu8] },
                bus::RequestView::Delay(40),
                bus::RequestView::Write { address, bytes: seq![0xBEu8, 0x08, 0x00] },
                bus::RequestView::Delay(10),
            ];
            &&& requests.is_prefix_of(whole)
            &&& bus_laws::run(session, replies).status == bus::Status::Finished(Outcome::Complete)
                ==> requests == whole
        }),
{
    let ops = init_ops();
    bus_laws::law_traffic(address, ops, replies);
    let busy = choose|busy: Seq<nat>| bus_laws::explains(busy, address, ops, replies);
    assert(busy[0] == 0 && busy[1] == 0 && busy[2] == 0 && busy[3] == 0);
    reveal_with_fuel(bus_laws::traffic, 5);
    assert(bus_laws::traffic(address, ops, 0, busy) =~= seq![
        bus::RequestView::Write { address, bytes: seq![0xBAu8] },
        bus::RequestView::Delay(40),
        bus::RequestView::Write { address, bytes: seq![0xBEu8, 0x08, 0x00] },
        bus::RequestView::Delay(10),
    ]);
}

/// The polls of a reading: the status byte is read `busy` times, each time followed by a pause, and
/// once more.
pub open spec fn polling(address: u8, busy: nat) -> Seq<bus::RequestView>
    decreases busy,
{
    let sample = bus::RequestView::Read { address, len: 1 };
    if busy == 0 {
        seq![sample]
    } else {
        seq![sample, bus::RequestView::Delay(10)] + polling(address, (busy - 1) as nat)
    }
}

/// The generic traffic of the poll is the polling of a reading.
proof fn lemma_polling(address: u8, busy: nat)
    ensures
        bus_laws::op_traffic(address, read_ops()[1], bus::Phase::Transfer, busy) == polling(
            address,
            busy,
        ),
    decreases busy,
{
    let op = read_ops()[1];
    reveal_with_fuel(bus_laws::op_traffic, 3);
    if busy > 0 {
        lemma_polling(address, (busy - 1) as nat);
        assert(bus_laws::op_traffic(address, op, bus::Phase::Transfer, busy) =~= polling(
            address,
            busy,
        ));
    }
}

/// A reading starts a measurement, polls until the sensor is ready, and then fetches seven bytes,
/// once. Whatever the replies, no other request is made; a conversation that meets no bus error
/// makes them all.
pub proof fn law_read_traffic(address: u8, replies: Seq<bus::ReplyView>) -> (busy: nat)
    requires
        bus_laws::all_fit(bus::SessionView::start(address, read_ops()), replies),
    ensures
        ({
            let session = bus::SessionView::start(address, read_ops());
            let requests = bus_laws::issued(session, replies);
            let whole = seq![
                bus::RequestView::Write { address, bytes: seq![0xACu8, 0x33, 0x00] },
            ] + polling(address, busy) + seq![bus::RequestView::Read { address, len: 7 }];
            &&& requests.is_prefix_of(whole)
            &&& bus_laws::run(session, replies).status == bus::Status::Finished(Outcome::Complete)
                ==> requests == whole
        }),
{
    let ops = read_ops();
    bus_laws::law_traffic(address, ops, replies);
    let busy = choose|busy: Seq<nat>| bus_laws::explains(busy, address, ops, replies);
    assert(busy[0] == 0 && busy[2] == 0);
    reveal_with_fuel(bus_laws::traffic, 4);
    lemma_polling(address, busy[1]);
    assert(bus_laws::traffic(address, ops, 0, busy) =~= seq![
        bus::RequestView::Write { address, bytes: seq![0xACu8, 0x33, 0x00] },
    ] + polling(address, busy[1]) + seq![bus::RequestView::Read { address, len: 7 }]);
    busy[1]
}

/// The checksum starts full of ones.
pub proof fn law_crc8_of_nothing()
    ensures
        crc8_of(Seq::empty()) == 0xff,
{
}

/// What a byte does to the checksum depends on nothing but the byte and the checksum before it, and
/// on these only where they differ. A difference in the lowest bit alone becomes the polynomial
/// x^5 + x^4 + 1.
pub proof fn law_crc8_lowest_bit(data: Seq<u8>, byte: u8)
    requires
        crc8_of(data) ^ byte == 1,
    ensures
        crc8_of(data.push(byte)) == 0x31,
{
    let crc = crc8_of(data);
    assert(data.push(byte).drop_last() =~= data);
    lemma_byte_is_shifts(crc, byte);
    assert(crc8_bit(1, false) == 2 && crc8_bit(2, false) == 4 && crc8_bit(4, false) == 8
        && crc8_bit(8, false) == 16 && crc8_bit(16, false) == 32 && crc8_bit(32, false) == 64
        && crc8_bit(64, false) == 128 && crc8_bit(128, false) == 0x31) by (bit_vector);
}

/// A difference one bit further up becomes the same, multiplied by x: it moves up by one, and where
/// a bit falls out the polynomial comes in.
pub proof fn law_crc8_next_bit(a: Seq<u8>, x: u8, b: Seq<u8>, y: u8)
    requires
        crc8_of(a) ^ x < 0x80,
        crc8_of(b) ^ y == 2 * (crc8_of(a) ^ x),
    ensures
        ({
            let one = crc8_of(a.push(x));
            let next = crc8_of(b.push(y));
            if one < 0x80 {
                next == 2 * one
            } else {
                next == ((2 * one - 0x100) as u8) ^ 0x31
            }
        }),
{
    let d = crc8_of(a) ^ x;
    let e = crc8_of(b) ^ y;
    assert(a.push(x).drop_last() =~= a);
    assert(b.push(y).drop_last() =~= b);
    lemma_byte_is_shifts(crc8_of(a), x);
    lemma_byte_is_shifts(crc8_of(b), y);
    assert(crc8_bit(d, false) == e) by (bit_vector)
        requires
            d < 0x80,
            e == 2 * d,
    ;
    let one = crc8_of(a.push(x));
    assert(crc8_of(b.push(y)) == crc8_shift(one));
    assert(if one < 0x80 {
        crc8_bit(one, false) == 2 * one
    } else {
        crc8_bit(one, false) == ((2 * one - 0x100) as u8) ^ 0x31
    }) by (bit_vector);
}

/// Differences add up: where a third difference is the sum of two, so is the checksum it leads to.
pub proof fn law_crc8_is_linear(a: Seq<u8>, x: u8, b: Seq<u8>, y: u8, c: Seq<u8>, z: u8)
    requires
        crc8_of(c) ^ z == (crc8_of(a) ^ x) ^ (crc8_of(b) ^ y),
    ensures
        crc8_of(c.push(z)) == crc8_of(a.push(x)) ^ crc8_of(b.push(y)),
{
    assert(a.push(x).drop_last() =~= a);
    assert(b.push(y).drop_last() =~= b);
    assert(c.push(z).drop_last() =~= c);
    lemma_byte_is_shifts(crc8_of(a), x);
    lemma_byte_is_shifts(crc8_of(b), y);
    lemma_byte_is_shifts(crc8_of(c), z);
    let p = crc8_of(a) ^ x;
    let q = crc8_of(b) ^ y;
    let p1 = crc8_shift(p);
    let q1 = crc8_shift(q);
    let p2 = crc8_shift(p1);
    let q2 = crc8_shift(q1);
    let p3 = crc8_shift(p2);
    let q3 = crc8_shift(q2);
    let p4 = crc8_shift(p3);
    let q4 = crc8_shift(q3);
    let p5 = crc8_shift(p4);
    let q5 = crc8_shift(q4);
    let p6 = crc8_shift(p5);
    let q6 = crc8_shift(q5);
    let p7 = crc8_shift(p6);
    let q7 = crc8_shift(q6);
    lemma_shift_linear(p, q);
    lemma_shift_linear(p1, q1);
    lemma_shift_linear(p2, q2);
    lemma_shift_linear(p3, q3);
    lemma_shift_linear(p4, q4);
    lemma_shift_linear(p5, q5);
    lemma_shift_linear(p6, q6);
    lemma_shift_linear(p7, q7);
}

/// A shift of a sum is the sum of the shifts.
proof fn lemma_shift_linear(a: u8, b: u8)
    ensures
        crc8_shift(a ^ b) == crc8_shift(a) ^ crc8_shift(b),
{
    assert(crc8_bit(a ^ b, false) == crc8_bit(a, false) ^ crc8_bit(b, false)) by (bit_vector);
}

/// A reading goes on exactly when the highest bit of the status byte is clear: then the seven bytes
/// are asked for. Otherwise the status is asked for again, after ten milliseconds.
pub proof fn law_reading_waits_for_the_busy_bit(
    address: u8,
    session: bus::SessionView,
    status: u8,
)
    requires
        session.wf(),
        session.address == address,
        session.ops == read_ops(),
        session.request() == Some(bus::RequestView::Read { address, len: 1 }),
    ensures
        ({
            let after = session.answered(bus::ReplyView::Data(seq![status]));
            if status < 0x80 {
                &&& after.request() == Some(bus::RequestView::Read { address, len: 7 })
                &&& after.fetched == session.fetched
            } else {
                &&& after.request() == Some(bus::RequestView::Delay(10))
                &&& after.answered(bus::ReplyView::Done) == session
            }
        }),
{
    assert(status < 0x80 <==> status & 0x80 == 0) by (bit_vector);
    let index = session.status->index;
    assert(index == 1);
}

/// A reading that gets its seven bytes is decoded from these bytes and from nothing else.
pub proof fn law_reading_ends_with_its_bytes(
    address: u8,
    session: bus::SessionView,
    bytes: Seq<u8>,
)
    requires
        session.wf(),
        session.address == address,
        session.ops == read_ops(),
        session.request() == Some(bus::RequestView::Read { address, len: 7 }),
        bytes.len() == 7,
    ensures
        ({
            let after = session.answered(bus::ReplyView::Data(bytes));
            &&& after.status == bus::Status::Finished(Outcome::Complete)
            &&& after.fetched == seq![bytes]
        }),
{
    let index = session.status->index;
    assert(index == 2);
    reveal_with_fuel(bus::fetch_lens, 3);
    assert(bus::fetch_lens(session.ops.take(2)).len() == 0);
    let got = session.fetched.map_values(|bytes: Seq<u8>| bytes.len());
    assert(got.len() == 0);
    assert(session.fetched.push(bytes) =~= seq![bytes]);
}

} // verus!
