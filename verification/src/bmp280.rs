//! The BMP280 pressure and temperature sensor.
//!
//! The library holds the sensor's registers, its settings, and the conversations that read and
//! write them. The compensation formulas that turn raw readings into degrees and hectopascals are
//! floating-point and live with the bus code.

use crate::bus;
use crate::bus::{Op, Outcome, Session};
use vstd::prelude::*;
use vstd::slice::slice_to_vec;

verus! {

/// Register of the chip number.
pub const ID: u8 = 0xD0;

/// Register of the reset command.
pub const RESET: u8 = 0xE0;

/// Register of the status bits.
pub const STATUS: u8 = 0xF3;

/// Register of oversampling and mode.
pub const CTRL_MEAS: u8 = 0xF4;

/// Register of standby time and filter.
pub const CONFIG: u8 = 0xF5;

/// First register of the pressure reading.
pub const PRESSURE: u8 = 0xF7;

/// First register of the temperature reading.
pub const TEMP: u8 = 0xFA;

/// First register of the calibration data.
pub const CALIB: u8 = 0x88;

/// What makes the sensor reset when it is written to `RESET`.
pub const RESET_COMMAND: u8 = 0xB6;

/// The status bit that is set while a conversion runs.
pub const MEASURING: u8 = 0b0000_1000;

/// The status bit that is set while the calibration data is copied.
pub const IM_UPDATE: u8 = 0b0000_0001;

/// Milliseconds between two looks at the status.
pub const POLL_PAUSE: u64 = 10;

/// Bytes of calibration data.
pub const CALIB_LEN: usize = 24;

/// Bytes of one reading.
pub const READING_LEN: usize = 3;

/// Why a sensor operation failed.
#[derive(Debug, PartialEq, Eq, Structural)]
pub enum Bme280Error {
    /// The bus reported an error.
    I2cError,
    /// The sensor's calibration data has not been read.
    NoCalibrationData,
}

/// When the sensor measures.
#[derive(Clone, Copy, Debug, PartialEq, Eq, Structural)]
pub enum Mode {
    Sleep,
    Forced,
    Normal,
}

/// How many samples make a reading.
#[derive(Clone, Copy, Debug, PartialEq, Eq, Structural)]
pub enum Oversample {
    Skip,
    X1,
    X2,
    X4,
    X8,
    X16,
}

/// How strongly readings are smoothed.
#[derive(Clone, Copy, Debug, PartialEq, Eq, Structural)]
pub enum Filter {
    Off,
    X2,
    X4,
    X8,
    X16,
}

/// How long the sensor rests between two measurements, in milliseconds.
#[derive(Clone, Copy, Debug, PartialEq, Eq, Structural)]
pub enum Standby {
    T0_5,
    T62_5,
    T125,
    T250,
    T500,
    T1000,
    T2000,
    T4000,
}

impl Mode {
    /// The two bits that stand for the mode.
    pub open spec fn bits(self) -> u8 {
        match self {
            Mode::Sleep => 0b00,
            Mode::Forced => 0b01,
            Mode::Normal => 0b11,
        }
    }

    /// The two bits that stand for the mode.
    pub fn code(self) -> (result: u8)
        ensures
            result == self.bits(),
            self is Sleep <==> result == 0,
            self is Forced <==> result == 1,
            self is Normal <==> result == 3,
    {
        match self {
            Mode::Sleep => 0b00,
            Mode::Forced => 0b01,
            Mode::Normal => 0b11,
        }
    }
}

impl Oversample {
    /// The three bits that stand for the sample count.
    pub open spec fn bits(self) -> u8 {
        match self {
            Oversample::Skip => 0b000,
            Oversample::X1 => 0b001,
            Oversample::X2 => 0b010,
            Oversample::X4 => 0b011,
            Oversample::X8 => 0b100,
            Oversample::X16 => 0b101,
        }
    }

    /// The three bits that stand for the sample count.
    pub fn code(self) -> (result: u8)
        ensures
            result == self.bits(),
            self is Skip <==> result == 0,
            self is X1 <==> result == 1,
            self is X2 <==> result == 2,
            self is X4 <==> result == 3,
            self is X8 <==> result == 4,
            self is X16 <==> result == 5,
    {
        match self {
            Oversample::Skip => 0b000,
            Oversample::X1 => 0b001,
            Oversample::X2 => 0b010,
            Oversample::X4 => 0b011,
            Oversample::X8 => 0b100,
            Oversample::X16 => 0b101,
        }
    }
}

impl Filter {
    /// The three bits that stand for the filter.
    pub open spec fn bits(self) -> u8 {
        match self {
            Filter::Off => 0b000,
            Filter::X2 => 0b001,
            Filter::X4 => 0b010,
            Filter::X8 => 0b011,
            Filter::X16 => 0b100,
        }
    }

    /// The three bits that stand for the filter.
    pub fn code(self) -> (result: u8)
        ensures
            result == self.bits(),
            self is Off <==> result == 0,
            self is X2 <==> result == 1,
            self is X4 <==> result == 2,
            self is X8 <==> result == 3,
            self is X16 <==> result == 4,
    {
        match self {
            Filter::Off => 0b000,
            Filter::X2 => 0b001,
            Filter::X4 => 0b010,
            Filter::X8 => 0b011,
            Filter::X16 => 0b100,
        }
    }
}

impl Standby {
    /// The three bits that stand for the standby time.
    pub open spec fn bits(self) -> u8 {
        match self {
            Standby::T0_5 => 0b000,
            Standby::T62_5 => 0b001,
            Standby::T125 => 0b010,
            Standby::T250 => 0b011,
            Standby::T500 => 0b100,
            Standby::T1000 => 0b101,
            Standby::T2000 => 0b110,
            Standby::T4000 => 0b111,
        }
    }

    /// The three bits that stand for the standby time.
    pub fn code(self) -> (result: u8)
        ensures
            result == self.bits(),
            self is T0_5 <==> result == 0,
            self is T62_5 <==> result == 1,
            self is T125 <==> result == 2,
            self is T250 <==> result == 3,
            self is T500 <==> result == 4,
            self is T1000 <==> result == 5,
            self is T2000 <==> result == 6,
            self is T4000 <==> result == 7,
    {
        match self {
            Standby::T0_5 => 0b000,
            Standby::T62_5 => 0b001,
            Standby::T125 => 0b010,
            Standby::T250 => 0b011,
            Standby::T500 => 0b100,
            Standby::T1000 => 0b101,
            Standby::T2000 => 0b110,
            Standby::T4000 => 0b111,
        }
    }
}

/// The content of `CTRL_MEAS` for these settings: three bits of temperature oversampling, three of
/// pressure oversampling, two of mode.
pub open spec fn ctrl_meas_byte(os_t: Oversample, os_p: Oversample, mode: Mode) -> u8 {
    (os_t.bits() * 32 + os_p.bits() * 4 + mode.bits()) as u8
}

/// The content of `CONFIG` for these settings: three bits of standby time, three of filter, two
/// unused.
pub open spec fn config_byte(t_sb: Standby, filter: Filter) -> u8 {
    (t_sb.bits() * 32 + filter.bits() * 4) as u8
}

/// The content of `CTRL_MEAS` for these settings.
pub fn encode_ctrl_meas(os_t: Oversample, os_p: Oversample, mode: Mode) -> (result: u8)
    ensures
        result == ctrl_meas_byte(os_t, os_p, mode),
        result / 32 == os_t.bits(),
        result / 4 % 8 == os_p.bits(),
        result % 4 == mode.bits(),
{
    let t: u8 = os_t.code();
    let p: u8 = os_p.code();
    let m: u8 = mode.code();
    let result: u8 = (t << 5) | (p << 2) | m;
    assert(result == t * 32 + p * 4 + m) by (bit_vector)
        requires
            t < 8,
            p < 8,
            m < 4,
            result == (t << 5) | (p << 2) | m,
    ;
    result
}

/// The content of `CONFIG` for these settings.
pub fn encode_config(t_sb: Standby, filter: Filter) -> (result: u8)
    ensures
        result == config_byte(t_sb, filter),
        result / 32 == t_sb.bits(),
        result / 4 % 8 == filter.bits(),
        result % 4 == 0,
{
    let s: u8 = t_sb.code();
    let f: u8 = filter.code();
    let result: u8 = (s << 5) | (f << 2);
    assert(result == s * 32 + f * 4) by (bit_vector)
        requires
            s < 8,
            f < 8,
            result == (s << 5) | (f << 2),
    ;
    result
}

/// The raw value of a three-byte reading: eight bits, eight bits, and the low four of the last.
pub open spec fn raw_value(bytes: Seq<u8>) -> u32 {
    (bytes[0] * 4096 + bytes[1] * 16 + bytes[2] % 16) as u32
}

/// The raw value of a three-byte reading.
pub fn decode_raw(bytes: &[u8]) -> (result: u32)
    requires
        bytes@.len() == READING_LEN,
    ensures
        result == raw_value(bytes@),
        result < 0x10_0000,
        result / 0x1000 == bytes@[0],
        result / 0x10 % 0x100 == bytes@[1],
        result % 0x10 == bytes@[2] % 0x10,
{
    let b0: u32 = bytes[0] as u32;
    let b1: u32 = bytes[1] as u32;
    let b2: u32 = bytes[2] as u32;
    assert(b0 << 12 == b0 * 4096) by (bit_vector)
        requires
            b0 < 256,
    ;
    assert(b1 << 4 == b1 * 16) by (bit_vector)
        requires
            b1 < 256,
    ;
    assert(b2 & 0xf == b2 % 16) by (bit_vector);
    (b0 << 12) + (b1 << 4) + (b2 & 0xf)
}

/// The unsigned number in two bytes, low byte first.
pub open spec fn unsigned_at(bytes: Seq<u8>, i: int) -> int {
    bytes[i] + 256 * bytes[i + 1]
}

/// The two's-complement number in two bytes, low byte first.
pub open spec fn signed_at(bytes: Seq<u8>, i: int) -> int {
    if unsigned_at(bytes, i) < 0x8000 {
        unsigned_at(bytes, i)
    } else {
        unsigned_at(bytes, i) - 0x1_0000
    }
}

/// The calibration numbers of a sensor: three for temperature, nine for pressure. The first of
/// each kind is unsigned, the others are signed.
#[derive(Clone, Copy, Debug, PartialEq, Eq)]
pub struct Calibration {
    pub t: [i32; 3],
    pub p: [i32; 9],
}

impl Calibration {
    /// These are the numbers in 24 bytes of calibration data.
    pub open spec fn is_in(self, bytes: Seq<u8>) -> bool {
        &&& self.t[0] == unsigned_at(bytes, 0)
        &&& forall|i: int| 1 <= i < 3 ==> #[trigger] self.t[i] == signed_at(bytes, 2 * i)
        &&& self.p[0] == unsigned_at(bytes, 6)
        &&& forall|i: int| 1 <= i < 9 ==> #[trigger] self.p[i] == signed_at(bytes, 6 + 2 * i)
    }
}

/// The unsigned number in two bytes, low byte first.
fn decode_unsigned(bytes: &[u8], i: usize) -> (result: i32)
    requires
        i + 1 < bytes@.len(),
    ensures
        result == unsigned_at(bytes@, i as int),
        0 <= result < 0x1_0000,
{
    bytes[i] as i32 + 256 * (bytes[i + 1] as i32)
}

/// The two's-complement number in two bytes, low byte first.
fn decode_signed(bytes: &[u8], i: usize) -> (result: i32)
    requires
        i + 1 < bytes@.len(),
    ensures
        result == signed_at(bytes@, i as int),
        -0x8000 <= result < 0x8000,
{
    let value: i32 = decode_unsigned(bytes, i);
    if value < 0x8000 {
        value
    } else {
        value - 0x1_0000
    }
}

/// The calibration numbers in 24 bytes of calibration data.
pub fn decode_calibration(bytes: &[u8]) -> (result: Calibration)
    requires
        bytes@.len() == CALIB_LEN,
    ensures
        result.is_in(bytes@),
        result.t[0] == bytes@[0] + 256 * bytes@[1],
        forall|i: int|
            1 <= i < 3 ==> {
                &&& -0x8000 <= #[trigger] result.t[i] < 0x8000
                &&& (result.t[i] - bytes@[2 * i] - 256 * bytes@[2 * i + 1]) % 0x1_0000 == 0
            },
        result.p[0] == bytes@[6] + 256 * bytes@[7],
        forall|i: int|
            1 <= i < 9 ==> {
                &&& -0x8000 <= #[trigger] result.p[i] < 0x8000
                &&& (result.p[i] - bytes@[6 + 2 * i] - 256 * bytes@[7 + 2 * i]) % 0x1_0000 == 0
            },
{
    let t: [i32; 3] = [
        decode_unsigned(bytes, 0),
        decode_signed(bytes, 2),
        decode_signed(bytes, 4),
    ];
    let p: [i32; 9] = [
        decode_unsigned(bytes, 6),
        decode_signed(bytes, 8),
        decode_signed(bytes, 10),
        decode_signed(bytes, 12),
        decode_signed(bytes, 14),
        decode_signed(bytes, 16),
        decode_signed(bytes, 18),
        decode_signed(bytes, 20),
        decode_signed(bytes, 22),
    ];
    Calibration { t, p }
}

/// Writes one value to one register.
pub open spec fn write_op(register: u8, value: u8) -> bus::OpView {
    bus::OpView::Write(seq![register, value])
}

/// Fetches the content of registers from `register` on.
pub open spec fn fetch_op(register: u8, len: usize) -> bus::OpView {
    bus::OpView::Fetch { register: Some(register), len }
}

/// Waits until no conversion runs.
pub open spec fn wait_op() -> bus::OpView {
    bus::OpView::Poll { register: Some(STATUS), mask: MEASURING, pause: POLL_PAUSE }
}

/// Reads the calibration data, makes the settings, and waits for a first conversion.
pub open spec fn init_ops(
    mode: Mode,
    os_t: Oversample,
    os_p: Oversample,
    t_sb: Standby,
    filter: Filter,
) -> Seq<bus::OpView> {
    seq![
        fetch_op(CALIB, CALIB_LEN),
        write_op(CONFIG, config_byte(t_sb, filter)),
        write_op(CTRL_MEAS, ctrl_meas_byte(os_t, os_p, mode)),
        wait_op(),
    ]
}

/// Waits and fetches a reading; gives up at once without calibration data.
pub open spec fn reading_ops(calibrated: bool, register: u8) -> Seq<bus::OpView> {
    if calibrated {
        seq![wait_op(), fetch_op(register, READING_LEN)]
    } else {
        seq![bus::OpView::Halt]
    }
}

/// A temperature and a pressure reading.
pub open spec fn measure_ops(calibrated: bool) -> Seq<bus::OpView> {
    reading_ops(calibrated, TEMP) + reading_ops(calibrated, PRESSURE)
}

/// Starts one measurement, takes both readings, and puts the sensor to sleep.
pub open spec fn force_ops(calibrated: bool) -> Seq<bus::OpView> {
    seq![
        write_op(CTRL_MEAS, ctrl_meas_byte(Oversample::X2, Oversample::X16, Mode::Forced)),
    ] + measure_ops(calibrated) + seq![
        write_op(CTRL_MEAS, ctrl_meas_byte(Oversample::X2, Oversample::X16, Mode::Sleep)),
    ]
}

/// The operations of `measure` or `force_measurement`.
pub open spec fn takes_both(calibrated: bool, ops: Seq<bus::OpView>) -> bool {
    ops == measure_ops(calibrated) || ops == force_ops(calibrated)
}

/// The first operation fetches, and no other does.
pub open spec fn fetches_first(ops: Seq<bus::OpView>) -> bool {
    &&& ops.len() > 0
    &&& ops[0] is Fetch
    &&& forall|i: int| 0 < i < ops.len() ==> !(#[trigger] ops[i] is Fetch)
}

/// What the end of a conversation means for its caller.
pub open spec fn verdict_of(status: bus::Status) -> Result<(), Bme280Error> {
    match status {
        bus::Status::Finished(Outcome::Complete) => Ok(()),
        bus::Status::Finished(Outcome::Halted) => Err(Bme280Error::NoCalibrationData),
        _ => Err(Bme280Error::I2cError),
    }
}

/// A raw temperature and the numbers that it is compensated with. The fine temperature that a
/// pressure is compensated with depends on nothing else.
#[derive(Clone, Copy, Debug, PartialEq, Eq)]
pub struct TempSample {
    pub raw: u32,
    pub t: [i32; 3],
}

/// A raw pressure, the numbers that it is compensated with, and the temperature sample that was the
/// last before it, if there was one.
#[derive(Clone, Copy, Debug, PartialEq, Eq)]
pub struct PressureSample {
    pub raw: u32,
    pub p: [i32; 9],
    pub fine: Option<TempSample>,
}

/// A sensor as a mathematical value: its bus address, its calibration data once that has been read,
/// and the last temperature sample taken.
pub struct SensorView {
    pub address: u8,
    pub calibration: Option<Calibration>,
    pub fine: Option<TempSample>,
}

impl SensorView {
    /// The calibration data has been read.
    pub open spec fn calibrated(self) -> bool {
        self.calibration is Some
    }

    /// A sensor that nothing has been read from.
    pub open spec fn fresh(address: u8) -> SensorView {
        SensorView { address, calibration: None, fine: None }
    }

    /// The temperature sample in three bytes from the sensor.
    pub open spec fn temp_sample(self, bytes: Seq<u8>) -> TempSample {
        TempSample { raw: raw_value(bytes), t: self.calibration->0.t }
    }

    /// The pressure sample in three bytes from the sensor.
    pub open spec fn pressure_sample(self, bytes: Seq<u8>) -> PressureSample {
        PressureSample { raw: raw_value(bytes), p: self.calibration->0.p, fine: self.fine }
    }

    /// The sensor with this temperature sample as its last.
    pub open spec fn with_fine(self, sample: TempSample) -> SensorView {
        SensorView { address: self.address, calibration: self.calibration, fine: Some(sample) }
    }

    /// `after` is the sensor once a conversation that reads calibration data has ended: the data
    /// counts when it was read, even when something went wrong afterwards.
    pub open spec fn stored(self, session: bus::SessionView, after: SensorView) -> bool {
        &&& after.address == self.address
        &&& after.fine == self.fine
        &&& if session.fetched.len() == 0 {
            after.calibration == self.calibration
        } else {
            after.calibration is Some && after.calibration->0.is_in(session.fetched[0])
        }
    }

    /// What `temp` gives once its conversation has ended.
    pub open spec fn temp_of(self, session: bus::SessionView) -> Result<TempSample, Bme280Error> {
        match verdict_of(session.status) {
            Ok(_) => Ok(self.temp_sample(session.fetched[0])),
            Err(error) => Err(error),
        }
    }

    /// The sensor after a conversation of `temp`: only a temperature that was taken changes it.
    pub open spec fn after_temp(self, session: bus::SessionView) -> SensorView {
        match verdict_of(session.status) {
            Ok(_) => self.with_fine(self.temp_sample(session.fetched[0])),
            Err(_) => self,
        }
    }

    /// What `pressure` gives once its conversation has ended.
    pub open spec fn pressure_of(self, session: bus::SessionView) -> Result<
        PressureSample,
        Bme280Error,
    > {
        match verdict_of(session.status) {
            Ok(_) => Ok(self.pressure_sample(session.fetched[0])),
            Err(error) => Err(error),
        }
    }

    /// The sensor after a conversation of `measure` or `force_measurement`: a temperature that was
    /// taken counts, even when something went wrong afterwards.
    pub open spec fn after_measurement(self, session: bus::SessionView) -> SensorView {
        if session.fetched.len() > 0 {
            self.with_fine(self.temp_sample(session.fetched[0]))
        } else {
            self
        }
    }

    /// What `measure` or `force_measurement` gives once its conversation has ended: the pressure
    /// goes with the temperature that was taken just before it.
    pub open spec fn measurement_of(self, session: bus::SessionView) -> Result<
        (TempSample, PressureSample),
        Bme280Error,
    > {
        match verdict_of(session.status) {
            Ok(_) => Ok(
                (
                    self.temp_sample(session.fetched[0]),
                    self.after_measurement(session).pressure_sample(session.fetched[1]),
                ),
            ),
            Err(error) => Err(error),
        }
    }
}

/// Makes the operation of `write_op`.
fn write(register: u8, value: u8) -> (result: Op)
    ensures
        result@ == write_op(register, value),
{
    let bytes: Vec<u8> = vec![register, value];
    assert(bytes@ =~= seq![register, value]);
    Op::Write(bytes)
}

/// Makes the operation of `fetch_op`.
fn fetch(register: u8, len: usize) -> (result: Op)
    ensures
        result@ == fetch_op(register, len),
{
    Op::Fetch { register: Some(register), len }
}

/// Makes the operation of `wait_op`.
fn wait_ready() -> (result: Op)
    ensures
        result@ == wait_op(),
{
    Op::Poll { register: Some(STATUS), mask: MEASURING, pause: POLL_PAUSE }
}

/// A sensor at an address on the bus, with its calibration data once that has been read, and the
/// last temperature sample taken.
pub struct Bmp280 {
    address: u8,
    calibration: Option<Calibration>,
    fine: Option<TempSample>,
}

impl View for Bmp280 {
    type V = SensorView;

    closed spec fn view(&self) -> SensorView {
        SensorView { address: self.address, calibration: self.calibration, fine: self.fine }
    }
}

impl Bmp280 {
    /// The sensor at this address, not calibrated yet.
    pub fn new(address: u8) -> (result: Self)
        ensures
            result@ == SensorView::fresh(address),
            result@.address == address,
            result@.calibration is None,
            result@.fine is None,
    {
        Bmp280 { address, calibration: None, fine: None }
    }

    /// The calibration data, once it has been read.
    pub fn calibration(&self) -> (result: Option<Calibration>)
        ensures
            result == self@.calibration,
    {
        self.calibration
    }

    /// A conversation of these operations.
    fn session(&self, ops: Vec<Op>) -> (result: Session)
        ensures
            result@ == bus::SessionView::start(self@.address, bus::op_views(ops@)),
            result@.wf(),
    {
        Session::new(self.address, ops)
    }

    /// The conversation that reads the calibration data and makes these settings.
    pub fn init(
        &self,
        mode: Mode,
        os_t: Oversample,
        os_p: Oversample,
        t_sb: Standby,
        filter: Filter,
    ) -> (result: Session)
        ensures
            result@ == bus::SessionView::start(
                self@.address,
                init_ops(mode, os_t, os_p, t_sb, filter),
            ),
            result@.wf(),
            result@.address == self@.address,
            result@.ops.len() == 4,
            result@.ops[0] == (bus::OpView::Fetch { register: Some(0x88u8), len: 24 }),
            result@.ops[1] matches bus::OpView::Write(bytes) && {
                &&& bytes.len() == 2
                &&& bytes[0] == 0xF5
                &&& bytes[1] / 32 == t_sb.bits()
                &&& bytes[1] / 4 % 8 == filter.bits()
                &&& bytes[1] % 4 == 0
            },
            result@.ops[2] matches bus::OpView::Write(bytes) && {
                &&& bytes.len() == 2
                &&& bytes[0] == 0xF4
                &&& bytes[1] / 32 == os_t.bits()
                &&& bytes[1] / 4 % 8 == os_p.bits()
                &&& bytes[1] % 4 == mode.bits()
            },
            result@.ops[3] == (bus::OpView::Poll { register: Some(0xF3u8), mask: 0x08, pause: 10 }),
    {
        let ops: Vec<Op> = vec![
            fetch(CALIB, CALIB_LEN),
            write(CONFIG, encode_config(t_sb, filter)),
            write(CTRL_MEAS, encode_ctrl_meas(os_t, os_p, mode)),
            wait_ready(),
        ];
        assert(bus::op_views(ops@) =~= init_ops(mode, os_t, os_p, t_sb, filter));
        self.session(ops)
    }

    /// The conversation that sets the sensor to measure on its own: single temperature samples, 16
    /// pressure samples, the strongest filter, half a second between measurements.
    pub fn init_default(&self) -> (result: Session)
        ensures
            result@ == bus::SessionView::start(
                self@.address,
                init_ops(
                    Mode::Normal,
                    Oversample::X1,
                    Oversample::X16,
                    Standby::T500,
                    Filter::X16,
                ),
            ),
            result@.wf(),
            result@.address == self@.address,
            result@.ops.len() == 4,
            result@.ops[0] == (bus::OpView::Fetch { register: Some(0x88u8), len: 24 }),
            result@.ops[1] == bus::OpView::Write(seq![0xF5u8, 0x90u8]),
            result@.ops[2] == bus::OpView::Write(seq![0xF4u8, 0x37u8]),
            result@.ops[3] == (bus::OpView::Poll { register: Some(0xF3u8), mask: 0x08, pause: 10 }),
    {
        self.init(Mode::Normal, Oversample::X1, Oversample::X16, Standby::T500, Filter::X16)
    }

    /// The conversation that leaves the sensor asleep: no temperature samples, single pressure
    /// samples, no filter, the shortest standby time.
    pub fn init_low_power(&self) -> (result: Session)
        ensures
            result@ == bus::SessionView::start(
                self@.address,
                init_ops(
                    Mode::Sleep,
                    Oversample::Skip,
                    Oversample::X1,
                    Standby::T0_5,
                    Filter::Off,
                ),
            ),
            result@.wf(),
            result@.address == self@.address,
            result@.ops.len() == 4,
            result@.ops[0] == (bus::OpView::Fetch { register: Some(0x88u8), len: 24 }),
            result@.ops[1] == bus::OpView::Write(seq![0xF5u8, 0x00u8]),
            result@.ops[2] == bus::OpView::Write(seq![0xF4u8, 0x04u8]),
            result@.ops[3] == (bus::OpView::Poll { register: Some(0xF3u8), mask: 0x08, pause: 10 }),
    {
        self.init(Mode::Sleep, Oversample::Skip, Oversample::X1, Standby::T0_5, Filter::Off)
    }

    /// The conversation that waits until no conversion runs.
    pub fn wait(&self) -> (result: Session)
        ensures
            result@ == bus::SessionView::start(self@.address, seq![wait_op()]),
            result@.wf(),
            result@.address == self@.address,
            result@.ops == seq![
                bus::OpView::Poll { register: Some(0xF3u8), mask: 0x08, pause: 10 },
            ],
    {
        let ops: Vec<Op> = vec![wait_ready()];
        assert(bus::op_views(ops@) =~= seq![wait_op()]);
        self.session(ops)
    }

    /// The conversation that takes a temperature and a pressure reading.
    pub fn measure(&self) -> (result: Session)
        ensures
            result@ == bus::SessionView::start(
                self@.address,
                measure_ops(self@.calibrated()),
            ),
            result@.wf(),
            result@.address == self@.address,
            self@.calibration is None ==> result@.ops[0] is Halt,
            self@.calibration is Some ==> result@.ops == seq![
                bus::OpView::Poll { register: Some(0xF3u8), mask: 0x08, pause: 10 },
                bus::OpView::Fetch { register: Some(0xFAu8), len: 3 },
                bus::OpView::Poll { register: Some(0xF3u8), mask: 0x08, pause: 10 },
                bus::OpView::Fetch { register: Some(0xF7u8), len: 3 },
            ],
    {
        let mut ops: Vec<Op> = Vec::new();
        self.add_reading(&mut ops, TEMP);
        self.add_reading(&mut ops, PRESSURE);
        assert(bus::op_views(ops@) =~= measure_ops(self@.calibrated()));
        self.session(ops)
    }

    /// The conversation that makes the sensor measure once and puts it back to sleep.
    pub fn force_measurement(&self) -> (result: Session)
        ensures
            result@ == bus::SessionView::start(self@.address, force_ops(self@.calibrated())),
            result@.wf(),
            result@.address == self@.address,
            result@.ops[0] == bus::OpView::Write(seq![0xF4u8, 0x55u8]),
            self@.calibration is None ==> result@.ops[1] is Halt,
            self@.calibration is Some ==> result@.ops == seq![
                bus::OpView::Write(seq![0xF4u8, 0x55u8]),
                bus::OpView::Poll { register: Some(0xF3u8), mask: 0x08, pause: 10 },
                bus::OpView::Fetch { register: Some(0xFAu8), len: 3 },
                bus::OpView::Poll { register: Some(0xF3u8), mask: 0x08, pause: 10 },
                bus::OpView::Fetch { register: Some(0xF7u8), len: 3 },
                bus::OpView::Write(seq![0xF4u8, 0x54u8]),
            ],
    {
        let mut ops: Vec<Op> = vec![
            write(CTRL_MEAS, encode_ctrl_meas(Oversample::X2, Oversample::X16, Mode::Forced)),
        ];
        let ghost start = bus::op_views(ops@);
        assert(start =~= seq![
            write_op(CTRL_MEAS, ctrl_meas_byte(Oversample::X2, Oversample::X16, Mode::Forced)),
        ]);
        self.add_reading(&mut ops, TEMP);
        self.add_reading(&mut ops, PRESSURE);
        let ghost middle = bus::op_views(ops@);
        assert(middle =~= start + measure_ops(self@.calibrated()));
        ops.push(write(CTRL_MEAS, encode_ctrl_meas(Oversample::X2, Oversample::X16, Mode::Sleep)));
        assert(bus::op_views(ops@) =~= middle.push(ops@.last()@));
        assert(bus::op_views(ops@) =~= force_ops(self@.calibrated()));
        self.session(ops)
    }

    /// Appends the operations of one reading.
    fn add_reading(&self, ops: &mut Vec<Op>, register: u8)
        ensures
            bus::op_views(final(ops)@) == bus::op_views(old(ops)@) + reading_ops(
                self@.calibrated(),
                register,
            ),
    {
        if self.calibration.is_some() {
            ops.push(wait_ready());
            ops.push(fetch(register, READING_LEN));
        } else {
            ops.push(Op::Halt);
        }
        assert(bus::op_views(ops@) =~= bus::op_views(old(ops)@) + reading_ops(
            self@.calibrated(),
            register,
        ));
    }

    /// The conversation that fetches the chip number.
    pub fn id(&self) -> (result: Session)
        ensures
            result@ == bus::SessionView::start(self@.address, seq![fetch_op(ID, 1)]),
            result@.wf(),
            result@.address == self@.address,
            result@.ops == seq![bus::OpView::Fetch { register: Some(0xD0u8), len: 1 }],
            result@.fetched.len() == 0,
    {
        self.read_register(ID, 1)
    }

    /// The conversation that resets the sensor.
    pub fn reset(&self) -> (result: Session)
        ensures
            result@ == bus::SessionView::start(
                self@.address,
                seq![write_op(RESET, RESET_COMMAND)],
            ),
            result@.wf(),
            result@.address == self@.address,
            result@.ops == seq![bus::OpView::Write(seq![0xE0u8, 0xB6u8])],
    {
        let ops: Vec<Op> = vec![write(RESET, RESET_COMMAND)];
        assert(bus::op_views(ops@) =~= seq![write_op(RESET, RESET_COMMAND)]);
        self.session(ops)
    }

    /// The conversation that fetches the status bits.
    pub fn status(&self) -> (result: Session)
        ensures
            result@ == bus::SessionView::start(self@.address, seq![fetch_op(STATUS, 1)]),
            result@.wf(),
            result@.address == self@.address,
            result@.ops == seq![bus::OpView::Fetch { register: Some(0xF3u8), len: 1 }],
            result@.fetched.len() == 0,
    {
        self.read_register(STATUS, 1)
    }

    /// The conversation that sets oversampling and mode.
    pub fn set_ctrl_meas(&self, os_t: Oversample, os_p: Oversample, mode: Mode) -> (result: Session)
        ensures
            result@ == bus::SessionView::start(
                self@.address,
                seq![write_op(CTRL_MEAS, ctrl_meas_byte(os_t, os_p, mode))],
            ),
            result@.wf(),
            result@.address == self@.address,
            result@.ops.len() == 1,
            result@.ops[0] matches bus::OpView::Write(bytes) && {
                &&& bytes.len() == 2
                &&& bytes[0] == 0xF4
                &&& bytes[1] / 32 == os_t.bits()
                &&& bytes[1] / 4 % 8 == os_p.bits()
                &&& bytes[1] % 4 == mode.bits()
            },
    {
        let ops: Vec<Op> = vec![write(CTRL_MEAS, encode_ctrl_meas(os_t, os_p, mode))];
        assert(bus::op_views(ops@) =~= seq![
            write_op(CTRL_MEAS, ctrl_meas_byte(os_t, os_p, mode)),
        ]);
        self.session(ops)
    }

    /// The conversation that fetches oversampling and mode.
    pub fn ctrl_meas(&self) -> (result: Session)
        ensures
            result@ == bus::SessionView::start(self@.address, seq![fetch_op(CTRL_MEAS, 1)]),
            result@.wf(),
            result@.address == self@.address,
            result@.ops == seq![bus::OpView::Fetch { register: Some(0xF4u8), len: 1 }],
            result@.fetched.len() == 0,
    {
        self.read_register(CTRL_MEAS, 1)
    }

    /// The conversation that sets standby time and filter.
    pub fn set_config(&self, t_sb: Standby, filter: Filter) -> (result: Session)
        ensures
            result@ == bus::SessionView::start(
                self@.address,
                seq![write_op(CONFIG, config_byte(t_sb, filter))],
            ),
            result@.wf(),
            result@.address == self@.address,
            result@.ops.len() == 1,
            result@.ops[0] matches bus::OpView::Write(bytes) && {
                &&& bytes.len() == 2
                &&& bytes[0] == 0xF5
                &&& bytes[1] / 32 == t_sb.bits()
                &&& bytes[1] / 4 % 8 == filter.bits()
                &&& bytes[1] % 4 == 0
            },
    {
        let ops: Vec<Op> = vec![write(CONFIG, encode_config(t_sb, filter))];
        assert(bus::op_views(ops@) =~= seq![write_op(CONFIG, config_byte(t_sb, filter))]);
        self.session(ops)
    }

    /// The conversation that fetches standby time and filter.
    pub fn config(&self) -> (result: Session)
        ensures
            result@ == bus::SessionView::start(self@.address, seq![fetch_op(CONFIG, 1)]),
            result@.wf(),
            result@.address == self@.address,
            result@.ops == seq![bus::OpView::Fetch { register: Some(0xF5u8), len: 1 }],
            result@.fetched.len() == 0,
    {
        self.read_register(CONFIG, 1)
    }

    /// The conversation that takes a temperature reading.
    pub fn temp(&self) -> (result: Session)
        ensures
            result@ == bus::SessionView::start(
                self@.address,
                reading_ops(self@.calibrated(), TEMP),
            ),
            result@.wf(),
            result@.address == self@.address,
            self@.calibration is None ==> result@.ops == seq![bus::OpView::Halt],
            self@.calibration is Some ==> result@.ops == seq![
                bus::OpView::Poll { register: Some(0xF3u8), mask: 0x08, pause: 10 },
                bus::OpView::Fetch { register: Some(0xFAu8), len: 3 },
            ],
    {
        let mut ops: Vec<Op> = Vec::new();
        self.add_reading(&mut ops, TEMP);
        assert(bus::op_views(ops@) =~= reading_ops(self@.calibrated(), TEMP));
        self.session(ops)
    }

    /// The conversation that takes a pressure reading.
    pub fn pressure(&self) -> (result: Session)
        ensures
            result@ == bus::SessionView::start(
                self@.address,
                reading_ops(self@.calibrated(), PRESSURE),
            ),
            result@.wf(),
            result@.address == self@.address,
            self@.calibration is None ==> result@.ops == seq![bus::OpView::Halt],
            self@.calibration is Some ==> result@.ops == seq![
                bus::OpView::Poll { register: Some(0xF3u8), mask: 0x08, pause: 10 },
                bus::OpView::Fetch { register: Some(0xF7u8), len: 3 },
            ],
    {
        let mut ops: Vec<Op> = Vec::new();
        self.add_reading(&mut ops, PRESSURE);
        assert(bus::op_views(ops@) =~= reading_ops(self@.calibrated(), PRESSURE));
        self.session(ops)
    }

    /// The conversation that reads the calibration data.
    pub fn calibrate(&self) -> (result: Session)
        ensures
            result@ == bus::SessionView::start(
                self@.address,
                seq![fetch_op(CALIB, CALIB_LEN)],
            ),
            result@.wf(),
            result@.address == self@.address,
            result@.ops == seq![bus::OpView::Fetch { register: Some(0x88u8), len: 24 }],
            result@.fetched.len() == 0,
    {
        self.read_register(CALIB, CALIB_LEN)
    }

    /// The conversation that fetches the content of registers from `register` on.
    pub fn read_register(&self, register: u8, len: usize) -> (result: Session)
        ensures
            result@ == bus::SessionView::start(
                self@.address,
                seq![fetch_op(register, len)],
            ),
            result@.wf(),
            result@.address == self@.address,
            result@.ops == seq![bus::OpView::Fetch { register: Some(register), len: len }],
            result@.fetched.len() == 0,
    {
        let ops: Vec<Op> = vec![fetch(register, len)];
        assert(bus::op_views(ops@) =~= seq![fetch_op(register, len)]);
        self.session(ops)
    }
}

/// Whether a conversation reached its end.
pub fn verdict(session: &Session) -> (result: Result<(), Bme280Error>)
    requires
        session@.status is Finished,
    ensures
        result == verdict_of(session@.status),
        result is Ok <==> session@.status == bus::Status::Finished(Outcome::Complete),
        result matches Err(error) ==> {
            &&& error is NoCalibrationData <==> session@.status == bus::Status::Finished(
                Outcome::Halted,
            )
            &&& error is I2cError <==> session@.status == bus::Status::Finished(Outcome::Failed)
        },
{
    match session.outcome() {
        Some(Outcome::Complete) => Ok(()),
        Some(Outcome::Halted) => Err(Bme280Error::NoCalibrationData),
        _ => Err(Bme280Error::I2cError),
    }
}

/// What a conversation of one fetch has fetched.
pub fn register_result(session: &Session) -> (result: Result<Vec<u8>, Bme280Error>)
    requires
        session@.wf(),
        session@.status is Finished,
        fetches_first(session@.ops),
    ensures
        match result {
            Ok(bytes) => {
                &&& verdict_of(session@.status) is Ok
                &&& session@.fetched == seq![bytes@]
                &&& bytes@.len() == session@.ops[0]->Fetch_len
            },
            Err(error) => verdict_of(session@.status) == Err::<(), Bme280Error>(error),
        },
        result is Ok <==> session@.status == bus::Status::Finished(Outcome::Complete),
        result matches Err(error) ==> {
            &&& error is NoCalibrationData <==> session@.status == bus::Status::Finished(
                Outcome::Halted,
            )
            &&& error is I2cError <==> session@.status == bus::Status::Finished(Outcome::Failed)
        },
{
    match verdict(session) {
        Err(error) => Err(error),
        Ok(()) => {
            let fetched = session.fetched();
            proof {
                lemma_fetches_first(session@.ops);
                bus::lemma_fetched(session@);
                assert(session@.fetched[0] == fetched@[0]@);
            }
            Ok(slice_to_vec(fetched[0].as_slice()))
        },
    }
}

/// The register content that `id`, `ctrl_meas` or `config` has fetched.
pub fn byte_result(session: &Session) -> (result: Result<u8, Bme280Error>)
    requires
        session@.wf(),
        session@.status is Finished,
        session@.ops.len() == 1,
        session@.ops[0] matches bus::OpView::Fetch { len, .. } && len == 1,
    ensures
        result == match verdict_of(session@.status) {
            Ok(_) => Ok(session@.fetched[0][0]),
            Err(error) => Err(error),
        },
        result is Ok ==> session@.fetched.len() == 1 && session@.fetched[0].len() == 1,
        result is Ok <==> session@.status == bus::Status::Finished(Outcome::Complete),
        result matches Err(error) ==> {
            &&& error is NoCalibrationData <==> session@.status == bus::Status::Finished(
                Outcome::Halted,
            )
            &&& error is I2cError <==> session@.status == bus::Status::Finished(Outcome::Failed)
        },
        result matches Ok(byte) ==> byte == session@.fetched[0][0],
{
    match register_result(session) {
        Ok(bytes) => Ok(bytes[0]),
        Err(error) => Err(error),
    }
}

/// The status bits: whether a conversion runs, and whether the calibration data is being copied.
pub fn status_result(session: &Session) -> (result: Result<(bool, bool), Bme280Error>)
    requires
        session@.wf(),
        session@.status is Finished,
        session@.ops.len() == 1,
        session@.ops[0] matches bus::OpView::Fetch { len, .. } && len == 1,
    ensures
        result == match verdict_of(session@.status) {
            Ok(_) => {
                let bits = session@.fetched[0][0];
                Ok((bits & MEASURING != 0, bits & IM_UPDATE != 0))
            },
            Err(error) => Err(error),
        },
        result is Ok ==> session@.fetched.len() == 1 && session@.fetched[0].len() == 1,
        result is Ok <==> session@.status == bus::Status::Finished(Outcome::Complete),
        result matches Err(error) ==> {
            &&& error is NoCalibrationData <==> session@.status == bus::Status::Finished(
                Outcome::Halted,
            )
            &&& error is I2cError <==> session@.status == bus::Status::Finished(Outcome::Failed)
        },
        result matches Ok((measuring, im_update)) ==> {
            &&& measuring <==> session@.fetched[0][0] / 8 % 2 == 1
            &&& im_update <==> session@.fetched[0][0] % 2 == 1
        },
{
    match byte_result(session) {
        Ok(bits) => {
            assert((bits & 8 != 0) == (bits / 8 % 2 == 1) && (bits & 1 != 0) == (bits % 2 == 1))
                by (bit_vector);
            Ok((bits & MEASURING != 0, bits & IM_UPDATE != 0))
        },
        Err(error) => Err(error),
    }
}

impl Bmp280 {
    /// Keeps the calibration data that `calibrate` or one of the `init` conversations has fetched,
    /// even when something went wrong afterwards, and tells whether all went well.
    pub fn store_calibration(&mut self, session: &Session) -> (result: Result<(), Bme280Error>)
        requires
            session@.wf(),
            session@.status is Finished,
            fetches_first(session@.ops),
            session@.ops[0] == fetch_op(CALIB, CALIB_LEN),
        ensures
            result == verdict_of(session@.status),
            old(self)@.stored(session@, final(self)@),
            result is Ok ==> session@.fetched.len() > 0,
            result is Ok <==> session@.status == bus::Status::Finished(Outcome::Complete),
            result matches Err(error) ==> {
                &&& error is NoCalibrationData <==> session@.status == bus::Status::Finished(
                    Outcome::Halted,
                )
                &&& error is I2cError <==> session@.status == bus::Status::Finished(Outcome::Failed)
            },
            final(self)@.address == old(self)@.address,
            final(self)@.fine == old(self)@.fine,
            session@.fetched.len() == 0 ==> final(self)@ == old(self)@,
            session@.fetched.len() > 0 ==> {
                &&& final(self)@.calibration is Some
                &&& final(self)@.calibration->0.is_in(session@.fetched[0])
            },
    {
        let fetched = session.fetched();
        proof {
            lemma_fetches_first(session@.ops);
            bus::lemma_fetched(session@);
        }
        if fetched.len() > 0 {
            assert(session@.fetched[0] == fetched@[0]@);
            self.calibration = Some(decode_calibration(fetched[0].as_slice()));
        }
        verdict(session)
    }

    /// The temperature sample of a conversation of `temp`. One that was taken is kept for later
    /// pressures.
    pub fn temp_result(&mut self, session: &Session) -> (result: Result<TempSample, Bme280Error>)
        requires
            session@.wf(),
            session@.status is Finished,
            session@.ops == reading_ops(old(self)@.calibrated(), TEMP),
        ensures
            result == old(self)@.temp_of(session@),
            final(self)@ == old(self)@.after_temp(session@),
            result is Ok ==> session@.fetched.len() == 1 && session@.fetched[0].len()
                == READING_LEN,
            result is Ok <==> session@.status == bus::Status::Finished(Outcome::Complete),
            result matches Err(error) ==> {
                &&& error is NoCalibrationData <==> session@.status == bus::Status::Finished(
                    Outcome::Halted,
                )
                &&& error is I2cError <==> session@.status == bus::Status::Finished(Outcome::Failed)
            },
            result is Err ==> final(self)@ == old(self)@,
            result matches Ok(sample) ==> {
                let bytes = session@.fetched[0];
                &&& sample.raw < 0x10_0000
                &&& sample.raw == bytes[0] * 0x1000 + bytes[1] * 0x10 + bytes[2] % 0x10
                &&& old(self)@.calibration is Some
                &&& sample.t == old(self)@.calibration->0.t
                &&& final(self)@.fine == Some(sample)
                &&& final(self)@.address == old(self)@.address
                &&& final(self)@.calibration == old(self)@.calibration
            },
    {
        proof {
            lemma_reading(session@, self@.calibrated(), TEMP);
        }
        match verdict(session) {
            Err(error) => Err(error),
            Ok(()) => {
                let fetched = session.fetched();
                assert(session@.fetched[0] == fetched@[0]@);
                let raw: u32 = decode_raw(fetched[0].as_slice());
                let sample = TempSample { raw, t: self.calibration.unwrap().t };
                self.fine = Some(sample);
                Ok(sample)
            },
        }
    }

    /// The pressure sample of a conversation of `pressure`, with the last temperature sample taken.
    pub fn pressure_result(&self, session: &Session) -> (result: Result<
        PressureSample,
        Bme280Error,
    >)
        requires
            session@.wf(),
            session@.status is Finished,
            session@.ops == reading_ops(self@.calibrated(), PRESSURE),
        ensures
            result == self@.pressure_of(session@),
            result is Ok ==> session@.fetched.len() == 1 && session@.fetched[0].len()
                == READING_LEN,
            result is Ok <==> session@.status == bus::Status::Finished(Outcome::Complete),
            result matches Err(error) ==> {
                &&& error is NoCalibrationData <==> session@.status == bus::Status::Finished(
                    Outcome::Halted,
                )
                &&& error is I2cError <==> session@.status == bus::Status::Finished(Outcome::Failed)
            },
            result matches Ok(sample) ==> {
                let bytes = session@.fetched[0];
                &&& sample.raw < 0x10_0000
                &&& sample.raw == bytes[0] * 0x1000 + bytes[1] * 0x10 + bytes[2] % 0x10
                &&& self@.calibration is Some
                &&& sample.p == self@.calibration->0.p
                &&& sample.fine == self@.fine
            },
    {
        proof {
            lemma_reading(session@, self@.calibrated(), PRESSURE);
        }
        match verdict(session) {
            Err(error) => Err(error),
            Ok(()) => {
                let fetched = session.fetched();
                assert(session@.fetched[0] == fetched@[0]@);
                let raw: u32 = decode_raw(fetched[0].as_slice());
                Ok(PressureSample { raw, p: self.calibration.unwrap().p, fine: self.fine })
            },
        }
    }

    /// The samples of a conversation of `measure` or `force_measurement`. A temperature that was
    /// taken is kept for later pressures, even when something went wrong afterwards.
    pub fn measurement_result(&mut self, session: &Session) -> (result: Result<
        (TempSample, PressureSample),
        Bme280Error,
    >)
        requires
            session@.wf(),
            session@.status is Finished,
            takes_both(old(self)@.calibrated(), session@.ops),
        ensures
            result == old(self)@.measurement_of(session@),
            final(self)@ == old(self)@.after_measurement(session@),
            result is Ok ==> session@.fetched.len() == 2,
            forall|i: int|
                0 <= i < session@.fetched.len() ==> (#[trigger] session@.fetched[i]).len()
                    == READING_LEN,
            result is Ok <==> session@.status == bus::Status::Finished(Outcome::Complete),
            result matches Err(error) ==> {
                &&& error is NoCalibrationData <==> session@.status == bus::Status::Finished(
                    Outcome::Halted,
                )
                &&& error is I2cError <==> session@.status == bus::Status::Finished(Outcome::Failed)
            },
            final(self)@.address == old(self)@.address,
            final(self)@.calibration == old(self)@.calibration,
            session@.fetched.len() == 0 ==> final(self)@ == old(self)@,
            session@.fetched.len() > 0 ==> {
                let bytes = session@.fetched[0];
                &&& old(self)@.calibration is Some
                &&& final(self)@.fine is Some
                &&& final(self)@.fine->0.raw == bytes[0] * 0x1000 + bytes[1] * 0x10 + bytes[2] % 0x10
                &&& final(self)@.fine->0.t == old(self)@.calibration->0.t
            },
            result matches Ok((temp, pressure)) ==> {
                let bytes = session@.fetched[1];
                &&& temp.raw < 0x10_0000
                &&& pressure.raw < 0x10_0000
                &&& final(self)@.fine == Some(temp)
                &&& pressure.raw == bytes[0] * 0x1000 + bytes[1] * 0x10 + bytes[2] % 0x10
                &&& pressure.p == old(self)@.calibration->0.p
                &&& pressure.fine == Some(temp)
            },
    {
        let fetched = session.fetched();
        proof {
            lemma_measurement(session@, self@.calibrated());
            assert forall|i: int| 0 <= i < fetched@.len() implies session@.fetched[i]
                == #[trigger] fetched@[i]@ by {}
        }
        if fetched.len() > 0 {
            let raw: u32 = decode_raw(fetched[0].as_slice());
            let sample = TempSample { raw, t: self.calibration.unwrap().t };
            self.fine = Some(sample);
        }
        match verdict(session) {
            Err(error) => Err(error),
            Ok(()) => {
                let raw: u32 = decode_raw(fetched[1].as_slice());
                let pressure = PressureSample {
                    raw,
                    p: self.calibration.unwrap().p,
                    fine: self.fine,
                };
                Ok((self.fine.unwrap(), pressure))
            },
        }
    }
}

/// A reading that has come to its end was made with calibration data, and fetched once.
pub proof fn lemma_reading(session: bus::SessionView, calibrated: bool, register: u8)
    requires
        session.wf(),
        session.ops == reading_ops(calibrated, register),
    ensures
        verdict_of(session.status) is Ok ==> {
            &&& calibrated
            &&& session.fetched.len() == 1
            &&& session.fetched[0].len() == READING_LEN
        },
{
    lemma_reading_fetches(calibrated, register);
    bus::lemma_fetched(session);
    if !calibrated {
        assert(session.ops[0] is Halt);
    }
}

/// A measurement fetches with calibration data alone, and has fetched twice when it has come to its
/// end.
pub proof fn lemma_measurement(session: bus::SessionView, calibrated: bool)
    requires
        session.wf(),
        takes_both(calibrated, session.ops),
    ensures
        session.fetched.len() > 0 ==> calibrated,
        forall|i: int|
            0 <= i < session.fetched.len() ==> (#[trigger] session.fetched[i]).len()
                == READING_LEN,
        verdict_of(session.status) is Ok ==> session.fetched.len() == 2,
{
    lemma_measure_fetches(calibrated);
    bus::lemma_fetched(session);
    if !calibrated {
        assert(measure_ops(calibrated)[0] is Halt);
        assert(force_ops(calibrated)[1] is Halt);
    }
}

/// Such operations fetch once.
proof fn lemma_fetches_first(ops: Seq<bus::OpView>)
    requires
        fetches_first(ops),
    ensures
        bus::fetch_lens(ops) == seq![ops[0]->Fetch_len as nat],
    decreases ops.len(),
{
    if ops.len() == 1 {
        assert(bus::fetch_lens(ops.drop_last()).len() == 0);
        assert(bus::fetch_lens(ops) =~= seq![ops[0]->Fetch_len as nat]);
    } else {
        lemma_fetches_first(ops.drop_last());
    }
}

/// What one reading fetches.
proof fn lemma_reading_fetches(calibrated: bool, register: u8)
    ensures
        bus::fetch_lens(reading_ops(calibrated, register)) == if calibrated {
            seq![READING_LEN as nat]
        } else {
            Seq::empty()
        },
{
    reveal_with_fuel(bus::fetch_lens, 3);
    assert(bus::fetch_lens(reading_ops(calibrated, register)) =~= if calibrated {
        seq![READING_LEN as nat]
    } else {
        Seq::empty()
    });
}

/// What a measurement fetches.
proof fn lemma_measure_fetches(calibrated: bool)
    ensures
        bus::fetch_lens(measure_ops(calibrated)) == if calibrated {
            seq![READING_LEN as nat, READING_LEN as nat]
        } else {
            Seq::empty()
        },
        bus::fetch_lens(force_ops(calibrated)) == bus::fetch_lens(measure_ops(calibrated)),
{
    reveal_with_fuel(bus::fetch_lens, 7);
    let measure = measure_ops(calibrated);
    let force = force_ops(calibrated);
    assert(bus::fetch_lens(measure) =~= if calibrated {
        seq![READING_LEN as nat, READING_LEN as nat]
    } else {
        Seq::empty()
    });
    assert(bus::fetch_lens(force) =~= bus::fetch_lens(measure));
}

} // verus!
