//! What holds of the BMP280's settings and of whole conversations with it.

use crate::bmp280;
use crate::bmp280::{
    Bme280Error, Calibration, Filter, Mode, Oversample, PressureSample, SensorView, Standby,
    TempSample, CALIB, CALIB_LEN, CONFIG, CTRL_MEAS, POLL_PAUSE, PRESSURE, READING_LEN, STATUS,
    TEMP,
};
use crate::bus;
use crate::bus::{Outcome, Phase, ReplyView, RequestView, SessionView, Status};
use crate::bus_laws;
use vstd::prelude::*;

verus! {

/// The measurement settings can be told from the register's content.
pub proof fn law_ctrl_meas_tells_settings_apart(
    os_t: Oversample,
    os_p: Oversample,
    mode: Mode,
    other_t: Oversample,
    other_p: Oversample,
    other_mode: Mode,
)
    requires
        bmp280::ctrl_meas_byte(os_t, os_p, mode) == bmp280::ctrl_meas_byte(
            other_t,
            other_p,
            other_mode,
        ),
    ensures
        os_t == other_t,
        os_p == other_p,
        mode == other_mode,
{
}

/// Standby time and filter can be told from the register's content.
pub proof fn law_config_tells_settings_apart(
    t_sb: Standby,
    filter: Filter,
    other_t: Standby,
    other_filter: Filter,
)
    requires
        bmp280::config_byte(t_sb, filter) == bmp280::config_byte(other_t, other_filter),
    ensures
        t_sb == other_t,
        filter == other_filter,
{
}

/// Every bit of the calibration data counts: different data gives different numbers.
pub proof fn law_calibration_is_lossless(numbers: Calibration, bytes: Seq<u8>, other: Seq<u8>)
    requires
        bytes.len() == CALIB_LEN,
        other.len() == CALIB_LEN,
        numbers.is_in(bytes),
        numbers.is_in(other),
    ensures
        bytes == other,
{
    assert forall|i: int| 0 <= i < 12 implies bmp280::unsigned_at(bytes, 2 * i)
        == #[trigger] bmp280::unsigned_at(other, 2 * i) by {
        let number = if i < 3 {
            numbers.t[i]
        } else {
            numbers.p[i - 3]
        };
        if i == 0 || i == 3 {
            assert(number == bmp280::unsigned_at(bytes, 2 * i));
            assert(number == bmp280::unsigned_at(other, 2 * i));
        } else {
            assert(number == bmp280::signed_at(bytes, 2 * i));
            assert(number == bmp280::signed_at(other, 2 * i));
        }
    }
    assert forall|k: int| 0 <= k < 24 implies bytes[k] == other[k] by {
        let i = k / 2;
        assert(bmp280::unsigned_at(bytes, 2 * i) == bmp280::unsigned_at(other, 2 * i));
        assert(k == 2 * i || k == 2 * i + 1);
    }
    assert(bytes =~= other);
}

/// Without calibration data a reading asks nothing of the bus and fails.
pub proof fn law_no_reading_without_calibration(address: u8, register: u8)
    ensures
        ({
            let session = SessionView::start(address, bmp280::reading_ops(false, register));
            &&& session.request() is None
            &&& bmp280::verdict_of(session.status) == Err::<(), Bme280Error>(
                Bme280Error::NoCalibrationData,
            )
        }),
        ({
            let session = SessionView::start(address, bmp280::measure_ops(false));
            &&& session.request() is None
            &&& bmp280::verdict_of(session.status) == Err::<(), Bme280Error>(
                Bme280Error::NoCalibrationData,
            )
        }),
{
    assert(bmp280::measure_ops(false)[0] is Halt);
}

/// Without calibration data a forced measurement sets the sensor off, which is all that it asks of
/// the bus, and fails.
pub proof fn law_no_forced_measurement_without_calibration(address: u8)
    ensures
        ({
            let session = SessionView::start(address, bmp280::force_ops(false));
            let after = session.answered(ReplyView::Done);
            &&& session.request() == Some(
                written(
                    address,
                    CTRL_MEAS,
                    bmp280::ctrl_meas_byte(Oversample::X2, Oversample::X16, Mode::Forced),
                ),
            )
            &&& after.request() is None
            &&& bmp280::verdict_of(after.status) == Err::<(), Bme280Error>(
                Bme280Error::NoCalibrationData,
            )
        }),
{
    assert(bmp280::force_ops(false)[1] is Halt);
}

/// Writes one value to one register.
pub open spec fn written(address: u8, register: u8, value: u8) -> RequestView {
    RequestView::Write { address, bytes: seq![register, value] }
}

/// Names a register and reads from there on.
pub open spec fn read_from(address: u8, register: u8, len: usize) -> Seq<RequestView> {
    seq![
        RequestView::Write { address, bytes: seq![register] },
        RequestView::Read { address, len },
    ]
}

/// Waiting for the sensor: the status is read `busy` times, each time followed by a pause, and once
/// more.
pub open spec fn waiting(address: u8, busy: nat) -> Seq<RequestView>
    decreases busy,
{
    if busy == 0 {
        read_from(address, STATUS, 1)
    } else {
        read_from(address, STATUS, 1) + seq![RequestView::Delay(POLL_PAUSE)] + waiting(
            address,
            (busy - 1) as nat,
        )
    }
}

/// The generic traffic of the wait is the waiting above.
proof fn lemma_waiting(address: u8, busy: nat)
    ensures
        bus_laws::op_traffic(address, bmp280::wait_op(), Phase::Select, busy) == waiting(
            address,
            busy,
        ),
    decreases busy,
{
    let op = bmp280::wait_op();
    reveal_with_fuel(bus_laws::op_traffic, 4);
    if busy > 0 {
        lemma_waiting(address, (busy - 1) as nat);
    }
    assert(bus_laws::op_traffic(address, op, Phase::Select, busy) =~= waiting(address, busy));
}

/// The generic traffic of a fetch is naming the register and reading.
proof fn lemma_fetching(address: u8, register: u8, len: usize)
    ensures
        bus_laws::op_traffic(address, bmp280::fetch_op(register, len), Phase::Select, 0)
            == read_from(address, register, len),
{
    reveal_with_fuel(bus_laws::op_traffic, 3);
    assert(bus_laws::op_traffic(address, bmp280::fetch_op(register, len), Phase::Select, 0)
        =~= read_from(address, register, len));
}

/// Setting a sensor up reads the calibration data, then writes standby time and filter, then
/// oversampling and mode, and then waits for the first conversion. Whatever the replies, no other
/// request is made; a conversation that meets no bus error makes them all.
pub proof fn law_init_traffic(
    address: u8,
    mode: Mode,
    os_t: Oversample,
    os_p: Oversample,
    t_sb: Standby,
    filter: Filter,
    replies: Seq<ReplyView>,
) -> (busy: nat)
    requires
        bus_laws::all_fit(
            SessionView::start(address, bmp280::init_ops(mode, os_t, os_p, t_sb, filter)),
            replies,
        ),
    ensures
        ({
            let session = SessionView::start(
                address,
                bmp280::init_ops(mode, os_t, os_p, t_sb, filter),
            );
            let requests = bus_laws::issued(session, replies);
            let whole = read_from(address, CALIB, CALIB_LEN) + seq![
                written(address, CONFIG, bmp280::config_byte(t_sb, filter)),
                written(address, CTRL_MEAS, bmp280::ctrl_meas_byte(os_t, os_p, mode)),
            ] + waiting(address, busy);
            &&& requests.is_prefix_of(whole)
            &&& bus_laws::run(session, replies).status == Status::Finished(Outcome::Complete)
                ==> requests == whole
        }),
{
    let ops = bmp280::init_ops(mode, os_t, os_p, t_sb, filter);
    bus_laws::law_traffic(address, ops, replies);
    let busy = choose|busy: Seq<nat>| bus_laws::explains(busy, address, ops, replies);
    assert(busy[0] == 0 && busy[1] == 0 && busy[2] == 0);
    reveal_with_fuel(bus_laws::traffic, 5);
    lemma_fetching(address, CALIB, CALIB_LEN);
    lemma_waiting(address, busy[3]);
    assert(bus_laws::traffic(address, ops, 0, busy) =~= read_from(address, CALIB, CALIB_LEN)
        + seq![
        written(address, CONFIG, bmp280::config_byte(t_sb, filter)),
        written(address, CTRL_MEAS, bmp280::ctrl_meas_byte(os_t, os_p, mode)),
    ] + waiting(address, busy[3]));
    busy[3]
}

/// The two readings of a measurement: wait and read the temperature, wait and read the pressure.
pub open spec fn measuring(address: u8, busy_t: nat, busy_p: nat) -> Seq<RequestView> {
    waiting(address, busy_t) + read_from(address, TEMP, READING_LEN) + waiting(address, busy_p)
        + read_from(address, PRESSURE, READING_LEN)
}

/// A measurement with a calibrated sensor waits and reads the temperature, then waits and reads the
/// pressure. Whatever the replies, no other request is made; a conversation that meets no bus
/// error makes them all.
pub proof fn law_measurement_traffic(address: u8, replies: Seq<ReplyView>) -> (busy: (nat, nat))
    requires
        bus_laws::all_fit(SessionView::start(address, bmp280::measure_ops(true)), replies),
    ensures
        ({
            let session = SessionView::start(address, bmp280::measure_ops(true));
            let requests = bus_laws::issued(session, replies);
            let whole = measuring(address, busy.0, busy.1);
            &&& requests.is_prefix_of(whole)
            &&& bus_laws::run(session, replies).status == Status::Finished(Outcome::Complete)
                ==> requests == whole
        }),
{
    let ops = bmp280::measure_ops(true);
    bus_laws::law_traffic(address, ops, replies);
    let busy = choose|busy: Seq<nat>| bus_laws::explains(busy, address, ops, replies);
    assert(busy[1] == 0 && busy[3] == 0);
    reveal_with_fuel(bus_laws::traffic, 5);
    lemma_waiting(address, busy[0]);
    lemma_waiting(address, busy[2]);
    lemma_fetching(address, TEMP, READING_LEN);
    lemma_fetching(address, PRESSURE, READING_LEN);
    assert(bus_laws::traffic(address, ops, 0, busy) =~= measuring(address, busy[0], busy[2]));
    (busy[0], busy[2])
}

/// A forced measurement of a calibrated sensor sets it off, waits and reads the temperature, waits
/// and reads the pressure, and puts it back to sleep. Whatever the replies, no other request is
/// made; a conversation that meets no bus error makes them all, and so ends with the sensor asleep.
pub proof fn law_forced_measurement_traffic(address: u8, replies: Seq<ReplyView>) -> (busy: (
    nat,
    nat,
))
    requires
        bus_laws::all_fit(SessionView::start(address, bmp280::force_ops(true)), replies),
    ensures
        ({
            let session = SessionView::start(address, bmp280::force_ops(true));
            let requests = bus_laws::issued(session, replies);
            let asleep = written(
                address,
                CTRL_MEAS,
                bmp280::ctrl_meas_byte(Oversample::X2, Oversample::X16, Mode::Sleep),
            );
            let whole = seq![
                written(
                    address,
                    CTRL_MEAS,
                    bmp280::ctrl_meas_byte(Oversample::X2, Oversample::X16, Mode::Forced),
                ),
            ] + measuring(address, busy.0, busy.1) + seq![asleep];
            &&& requests.is_prefix_of(whole)
            &&& bus_laws::run(session, replies).status == Status::Finished(Outcome::Complete)
                ==> requests == whole && requests.last() == asleep
        }),
{
    let ops = bmp280::force_ops(true);
    bus_laws::law_traffic(address, ops, replies);
    let busy = choose|busy: Seq<nat>| bus_laws::explains(busy, address, ops, replies);
    assert(busy[0] == 0 && busy[2] == 0 && busy[4] == 0 && busy[5] == 0);
    reveal_with_fuel(bus_laws::traffic, 7);
    lemma_waiting(address, busy[1]);
    lemma_waiting(address, busy[3]);
    lemma_fetching(address, TEMP, READING_LEN);
    lemma_fetching(address, PRESSURE, READING_LEN);
    let forced = written(
        address,
        CTRL_MEAS,
        bmp280::ctrl_meas_byte(Oversample::X2, Oversample::X16, Mode::Forced),
    );
    let asleep = written(
        address,
        CTRL_MEAS,
        bmp280::ctrl_meas_byte(Oversample::X2, Oversample::X16, Mode::Sleep),
    );
    assert(bus_laws::traffic(address, ops, 0, busy) =~= seq![forced] + measuring(
        address,
        busy[1],
        busy[3],
    ) + seq![asleep]);
    (busy[1], busy[3])
}

/// A call on a sensor, with the replies of the bus to it.
pub enum Call {
    Calibrate(Seq<ReplyView>),
    Init {
        mode: Mode,
        os_t: Oversample,
        os_p: Oversample,
        t_sb: Standby,
        filter: Filter,
        replies: Seq<ReplyView>,
    },
    Temp(Seq<ReplyView>),
    Measure(Seq<ReplyView>),
    Force(Seq<ReplyView>),
    /// Any other call: it leaves the sensor's state as it is.
    Other,
}

impl Call {
    /// The call's operations on a sensor.
    pub open spec fn ops(self, sensor: SensorView) -> Seq<bus::OpView> {
        match self {
            Call::Calibrate(_) => seq![bmp280::fetch_op(CALIB, CALIB_LEN)],
            Call::Init { mode, os_t, os_p, t_sb, filter, .. } => bmp280::init_ops(
                mode,
                os_t,
                os_p,
                t_sb,
                filter,
            ),
            Call::Temp(_) => bmp280::reading_ops(sensor.calibrated(), TEMP),
            Call::Measure(_) => bmp280::measure_ops(sensor.calibrated()),
            Call::Force(_) => bmp280::force_ops(sensor.calibrated()),
            Call::Other => Seq::empty(),
        }
    }

    /// The replies of the bus.
    pub open spec fn replies(self) -> Seq<ReplyView> {
        match self {
            Call::Calibrate(replies) => replies,
            Call::Init { replies, .. } => replies,
            Call::Temp(replies) => replies,
            Call::Measure(replies) => replies,
            Call::Force(replies) => replies,
            Call::Other => Seq::empty(),
        }
    }

    /// The call's conversation at its start.
    pub open spec fn start(self, sensor: SensorView) -> SessionView {
        SessionView::start(sensor.address, self.ops(sensor))
    }

    /// The call's conversation after all replies.
    pub open spec fn session(self, sensor: SensorView) -> SessionView {
        bus_laws::run(self.start(sensor), self.replies())
    }

    /// The call takes a sensor from one state to another, with a conversation that came to an end.
    pub open spec fn leads(self, before: SensorView, after: SensorView) -> bool {
        let session = self.session(before);
        &&& bus_laws::all_fit(self.start(before), self.replies())
        &&& session.status is Finished
        &&& match self {
            Call::Calibrate(_) | Call::Init { .. } => before.stored(session, after),
            Call::Temp(_) => after == before.after_temp(session),
            Call::Measure(_) | Call::Force(_) => after == before.after_measurement(session),
            Call::Other => after == before,
        }
    }

    /// The call read the calibration data: both bus operations that this takes went well, whatever
    /// came behind them.
    pub open spec fn reads_calibration(self) -> bool {
        &&& self is Calibrate || self is Init
        &&& self.replies().len() >= 2
        &&& self.replies()[0] is Done
        &&& self.replies()[1] is Data
    }

    /// The temperature sample that the call took, if it took one.
    pub open spec fn sample(self, sensor: SensorView) -> Option<TempSample> {
        let session = self.session(sensor);
        let sample = Some(sensor.temp_sample(session.fetched[0]));
        match self {
            Call::Temp(_) => if bmp280::verdict_of(session.status) is Ok {
                sample
            } else {
                None
            },
            Call::Measure(_) | Call::Force(_) => if session.fetched.len() > 0 {
                sample
            } else {
                None
            },
            _ => None,
        }
    }
}

/// The states of a sensor from its making on, with a call between each and the next.
pub open spec fn history(address: u8, states: Seq<SensorView>, calls: Seq<Call>) -> bool {
    &&& states.len() == calls.len() + 1
    &&& states[0] == SensorView::fresh(address)
    &&& forall|i: int|
        0 <= i < calls.len() ==> (#[trigger] calls[i]).leads(states[i], states[i + 1])
}

/// One of these calls read the calibration data.
pub open spec fn calibration_was_read(calls: Seq<Call>) -> bool {
    exists|i: int| 0 <= i < calls.len() && (#[trigger] calls[i]).reads_calibration()
}

/// The temperature sample that was the last in a history, if there was one.
pub open spec fn last_sample(states: Seq<SensorView>, calls: Seq<Call>) -> Option<TempSample>
    decreases calls.len(),
{
    if calls.len() == 0 {
        None
    } else {
        let sample = calls.last().sample(states[calls.len() - 1]);
        if sample is Some {
            sample
        } else {
            last_sample(states, calls.drop_last())
        }
    }
}

/// A conversation that begins with a fetch from a register, and fetches nowhere else, has fetched
/// exactly when its first two requests went well.
proof fn lemma_first_fetch(address: u8, ops: Seq<bus::OpView>, replies: Seq<ReplyView>)
    requires
        bmp280::fetches_first(ops),
        ops[0].register() is Some,
        ops.len() <= usize::MAX,
        bus_laws::all_fit(SessionView::start(address, ops), replies),
    ensures
        bus_laws::run(SessionView::start(address, ops), replies).fetched.len() > 0 <==> {
            &&& replies.len() >= 2
            &&& replies[0] is Done
            &&& replies[1] is Data
        },
{
    let start = SessionView::start(address, ops);
    bus::lemma_start_wf(address, ops);
    assert(start.status == Status::Running { index: 0, phase: Phase::Select });
    if replies.len() > 0 {
        let selected = start.answered(replies[0]);
        let others = replies.drop_first();
        bus::lemma_answered_wf(start, replies[0]);
        assert(bus_laws::all_fit(selected, others));
        assert(bus_laws::run(start, replies) == bus_laws::run(selected, others));
        if others.len() > 0 {
            assert(replies[0] is Done);
            let read = selected.answered(others[0]);
            assert(selected.request() is Some);
            bus::lemma_answered_wf(selected, others[0]);
            assert(bus_laws::all_fit(read, others.drop_first()));
            assert(others[0] == replies[1]);
            assert(bus_laws::run(selected, others) == bus_laws::run(read, others.drop_first()));
            if others[0] is Failed {
                assert(bus_laws::run(read, others.drop_first()) == read);
            } else {
                assert(read.fetched.len() == 1);
                bus_laws::lemma_run(read, others.drop_first());
            }
        }
    }
}

/// What one call does to a sensor's state.
proof fn lemma_call(call: Call, before: SensorView, after: SensorView)
    requires
        call.leads(before, after),
    ensures
        after.address == before.address,
        after.calibrated() <==> before.calibrated() || call.reads_calibration(),
        after.fine == if call.sample(before) is Some {
            call.sample(before)
        } else {
            before.fine
        },
{
    if call is Calibrate || call is Init {
        lemma_first_fetch(before.address, call.ops(before), call.replies());
    }
}

/// A sensor is calibrated exactly when some call on it has read the calibration data, and stays so.
/// The temperature that it keeps for pressures is the last that was taken.
pub proof fn law_sensor_history(address: u8, states: Seq<SensorView>, calls: Seq<Call>)
    requires
        history(address, states, calls),
    ensures
        states.last().address == address,
        states.last().calibrated() <==> calibration_was_read(calls),
        states.last().fine == last_sample(states, calls),
    decreases calls.len(),
{
    if calls.len() > 0 {
        let earlier = calls.drop_last();
        let before = states.drop_last();
        assert(history(address, before, earlier)) by {
            assert forall|i: int| 0 <= i < earlier.len() implies (#[trigger] earlier[i]).leads(
                before[i],
                before[i + 1],
            ) by {
                assert(earlier[i] == calls[i]);
            }
        }
        law_sensor_history(address, before, earlier);
        lemma_last_sample_local(before, states, earlier);
        let last = calls.len() - 1;
        assert(calls[last].leads(states[last], states[last + 1]));
        lemma_call(calls[last], states[last], states[last + 1]);
        if calibration_was_read(earlier) {
            let i = choose|i: int|
                0 <= i < earlier.len() && (#[trigger] earlier[i]).reads_calibration();
            assert(calls[i].reads_calibration());
        }
        if calibration_was_read(calls) && !calls[last].reads_calibration() {
            let i = choose|i: int|
                0 <= i < calls.len() && (#[trigger] calls[i]).reads_calibration();
            assert(earlier[i].reads_calibration());
        }
    }
}

/// The last sample depends on the states in front of the calls alone.
proof fn lemma_last_sample_local(a: Seq<SensorView>, b: Seq<SensorView>, calls: Seq<Call>)
    requires
        forall|i: int| 0 <= i < calls.len() ==> a[i] == b[i],
    ensures
        last_sample(a, calls) == last_sample(b, calls),
    decreases calls.len(),
{
    if calls.len() > 0 {
        lemma_last_sample_local(a, b, calls.drop_last());
    }
}

/// How a reading from a register ends, on a sensor in this state.
proof fn lemma_reading_ends(sensor: SensorView, register: u8, replies: Seq<ReplyView>)
    requires
        ({
            let start = SessionView::start(
                sensor.address,
                bmp280::reading_ops(sensor.calibrated(), register),
            );
            &&& bus_laws::all_fit(start, replies)
            &&& bus_laws::run(start, replies).status is Finished
        }),
    ensures
        ({
            let start = SessionView::start(
                sensor.address,
                bmp280::reading_ops(sensor.calibrated(), register),
            );
            let session = bus_laws::run(start, replies);
            let verdict = bmp280::verdict_of(session.status);
            &&& verdict == Err::<(), Bme280Error>(Bme280Error::NoCalibrationData)
                <==> !sensor.calibrated()
            &&& !sensor.calibrated() ==> bus_laws::issued(start, replies).len() == 0
            &&& sensor.calibrated() ==> (verdict == Err::<(), Bme280Error>(Bme280Error::I2cError)
                <==> bus_laws::some_failed(replies))
            &&& verdict is Ok ==> {
                &&& replies.len() > 0
                &&& replies.last() is Data
                &&& session.fetched.len() == 1
                &&& session.fetched[0] == replies.last()->Data_0
                &&& session.fetched[0].len() == READING_LEN
            }
        }),
{
    let ops = bmp280::reading_ops(sensor.calibrated(), register);
    let start = SessionView::start(sensor.address, ops);
    bus::lemma_start_wf(sensor.address, ops);
    bus_laws::lemma_run(start, replies);
    let session = bus_laws::run(start, replies);
    if sensor.calibrated() {
        assert(start.status is Running);
        bus_laws::law_fails_exactly_on_a_bus_error(start, replies);
        assert(!bus::halts(ops)) by {
            assert forall|i: int| 0 <= i < ops.len() implies !(#[trigger] ops[i] is Halt) by {}
        }
        bmp280::lemma_reading(session, true, register);
        if session.status == Status::Finished(Outcome::Complete) {
            assert(ops.last() is Fetch);
            bus_laws::lemma_last_fetch(start, replies);
        }
    } else {
        assert(ops[0] is Halt);
        assert(start.request() is None);
        assert(replies.len() == 0);
    }
}

/// A temperature reading, at any point of a sensor's history and whatever the bus replies. It fails
/// for want of calibration data exactly when no call has read that data, and then asks nothing of
/// the bus. Otherwise it fails exactly when the bus reports an error. When it fails, the
/// temperature kept for pressures stays as it was.
pub proof fn law_temp(
    address: u8,
    states: Seq<SensorView>,
    calls: Seq<Call>,
    replies: Seq<ReplyView>,
)
    requires
        history(address, states, calls),
        bus_laws::all_fit(Call::Temp(replies).start(states.last()), replies),
        Call::Temp(replies).session(states.last()).status is Finished,
    ensures
        ({
            let sensor = states.last();
            let start = Call::Temp(replies).start(sensor);
            let session = Call::Temp(replies).session(sensor);
            let result = sensor.temp_of(session);
            &&& result == Err::<TempSample, Bme280Error>(Bme280Error::NoCalibrationData)
                <==> !calibration_was_read(calls)
            &&& !calibration_was_read(calls) ==> bus_laws::issued(start, replies).len() == 0
            &&& calibration_was_read(calls) ==> (result == Err::<TempSample, Bme280Error>(
                Bme280Error::I2cError,
            ) <==> bus_laws::some_failed(replies))
            &&& result is Err ==> sensor.after_temp(session) == sensor
            &&& result matches Ok(sample) ==> {
                let bytes = replies.last()->Data_0;
                &&& replies.last() is Data
                &&& sample == sensor.temp_sample(bytes)
                &&& sample.raw == bytes[0] * 0x1000 + bytes[1] * 0x10 + bytes[2] % 0x10
                &&& sample.t == sensor.calibration->0.t
                &&& sensor.after_temp(session).fine == Some(sample)
            }
        }),
{
    law_sensor_history(address, states, calls);
    lemma_reading_ends(states.last(), TEMP, replies);
}

/// A pressure reading, at any point of a sensor's history and whatever the bus replies. It fails as
/// a temperature reading does. When it succeeds, its raw value is that of the bytes read last, and
/// it goes with the temperature sample that was the last in the history, if there was one.
pub proof fn law_pressure(
    address: u8,
    states: Seq<SensorView>,
    calls: Seq<Call>,
    replies: Seq<ReplyView>,
)
    requires
        history(address, states, calls),
        ({
            let start = SessionView::start(
                states.last().address,
                bmp280::reading_ops(states.last().calibrated(), PRESSURE),
            );
            &&& bus_laws::all_fit(start, replies)
            &&& bus_laws::run(start, replies).status is Finished
        }),
    ensures
        ({
            let sensor = states.last();
            let start = SessionView::start(
                sensor.address,
                bmp280::reading_ops(sensor.calibrated(), PRESSURE),
            );
            let result = sensor.pressure_of(bus_laws::run(start, replies));
            &&& result == Err::<PressureSample, Bme280Error>(Bme280Error::NoCalibrationData)
                <==> !calibration_was_read(calls)
            &&& !calibration_was_read(calls) ==> bus_laws::issued(start, replies).len() == 0
            &&& calibration_was_read(calls) ==> (result == Err::<PressureSample, Bme280Error>(
                Bme280Error::I2cError,
            ) <==> bus_laws::some_failed(replies))
            &&& result matches Ok(sample) ==> {
                let bytes = replies.last()->Data_0;
                &&& replies.last() is Data
                &&& sample.raw == bytes[0] * 0x1000 + bytes[1] * 0x10 + bytes[2] % 0x10
                &&& sample.p == sensor.calibration->0.p
                &&& sample.fine == last_sample(states, calls)
            }
        }),
{
    law_sensor_history(address, states, calls);
    lemma_reading_ends(states.last(), PRESSURE, replies);
}

/// With no temperature reading in between, equal bytes from the sensor give equal pressures: two
/// readings of a sensor in one state that end with the same bytes give the same sample.
pub proof fn law_equal_bytes_give_equal_pressures(
    sensor: SensorView,
    a: Seq<ReplyView>,
    b: Seq<ReplyView>,
)
    requires
        ({
            let start = SessionView::start(
                sensor.address,
                bmp280::reading_ops(sensor.calibrated(), PRESSURE),
            );
            &&& bus_laws::all_fit(start, a)
            &&& bus_laws::all_fit(start, b)
            &&& bmp280::verdict_of(bus_laws::run(start, a).status) is Ok
            &&& bmp280::verdict_of(bus_laws::run(start, b).status) is Ok
        }),
        a.last() == b.last(),
    ensures
        ({
            let start = SessionView::start(
                sensor.address,
                bmp280::reading_ops(sensor.calibrated(), PRESSURE),
            );
            sensor.pressure_of(bus_laws::run(start, a)) == sensor.pressure_of(
                bus_laws::run(start, b),
            )
        }),
{
    lemma_reading_ends(sensor, PRESSURE, a);
    lemma_reading_ends(sensor, PRESSURE, b);
}

/// The raw value of a reading is its bits in order: eight of the first byte, eight of the second,
/// and the low four of the third. None of these is lost.
pub proof fn law_raw_value_is_the_bits_in_order(bytes: Seq<u8>)
    requires
        bytes.len() == READING_LEN,
    ensures
        bmp280::raw_value(bytes) < 0x10_0000,
        bmp280::raw_value(bytes) / 0x1000 == bytes[0],
        bmp280::raw_value(bytes) / 0x10 % 0x100 == bytes[1],
        bmp280::raw_value(bytes) % 0x10 == bytes[2] % 0x10,
{
}

/// Two readings differ by as much as their bytes do: one more in the first byte is 4096 more, one
/// more in the second is 16 more, and readings that differ in either differ in their raw values.
pub proof fn law_raw_values_differ_as_their_bytes_do(a: Seq<u8>, b: Seq<u8>)
    requires
        a.len() == READING_LEN,
        b.len() == READING_LEN,
    ensures
        bmp280::raw_value(b) - bmp280::raw_value(a) == (b[0] - a[0]) * 0x1000 + (b[1] - a[1]) * 0x10
            + (b[2] % 0x10 - a[2] % 0x10),
        bmp280::raw_value(a) == bmp280::raw_value(b) <==> a[0] == b[0] && a[1] == b[1] && a[2] % 0x10
            == b[2] % 0x10,
{
}

/// A sample holds the raw value of its bytes and the numbers of the sensor that took it; a pressure
/// goes with the temperature that the sensor keeps.
pub proof fn law_samples(sensor: SensorView, bytes: Seq<u8>)
    requires
        bytes.len() == READING_LEN,
    ensures
        sensor.temp_sample(bytes).raw == bytes[0] * 0x1000 + bytes[1] * 0x10 + bytes[2] % 0x10,
        sensor.temp_sample(bytes).t == sensor.calibration->0.t,
        sensor.pressure_sample(bytes).raw == bytes[0] * 0x1000 + bytes[1] * 0x10 + bytes[2] % 0x10,
        sensor.pressure_sample(bytes).p == sensor.calibration->0.p,
        sensor.pressure_sample(bytes).fine == sensor.fine,
{
}

/// The calibration numbers are those in the data, two bytes each and low byte first: the first of
/// each kind as it is, the others up to a multiple of 65536 and from -32768 to 32767.
pub proof fn law_calibration_numbers(numbers: Calibration, bytes: Seq<u8>)
    requires
        bytes.len() == CALIB_LEN,
        numbers.is_in(bytes),
    ensures
        numbers.t[0] == bytes[0] + 256 * bytes[1],
        forall|i: int|
            1 <= i < 3 ==> {
                &&& -0x8000 <= #[trigger] numbers.t[i] < 0x8000
                &&& (numbers.t[i] - bytes[2 * i] - 256 * bytes[2 * i + 1]) % 0x1_0000 == 0
            },
        numbers.p[0] == bytes[6] + 256 * bytes[7],
        forall|i: int|
            1 <= i < 9 ==> {
                &&& -0x8000 <= #[trigger] numbers.p[i] < 0x8000
                &&& (numbers.p[i] - bytes[6 + 2 * i] - 256 * bytes[7 + 2 * i]) % 0x1_0000 == 0
            },
{
}

/// Each setting stands in its own bits of its register: three bits of temperature oversampling,
/// three of pressure oversampling and two of mode; three of standby time, three of filter and two
/// that are clear.
pub proof fn law_settings_stand_in_their_bits(
    os_t: Oversample,
    os_p: Oversample,
    mode: Mode,
    t_sb: Standby,
    filter: Filter,
)
    ensures
        bmp280::ctrl_meas_byte(os_t, os_p, mode) / 32 == os_t.bits(),
        bmp280::ctrl_meas_byte(os_t, os_p, mode) / 4 % 8 == os_p.bits(),
        bmp280::ctrl_meas_byte(os_t, os_p, mode) % 4 == mode.bits(),
        bmp280::config_byte(t_sb, filter) / 32 == t_sb.bits(),
        bmp280::config_byte(t_sb, filter) / 4 % 8 == filter.bits(),
        bmp280::config_byte(t_sb, filter) % 4 == 0,
{
}

/// A conversation with the sensor goes on behind a wait exactly when bit 3 of the status is clear.
/// Otherwise it asks again after ten milliseconds.
pub proof fn law_waits_for_the_measuring_bit(
    session: SessionView,
    mode: Mode,
    os_t: Oversample,
    os_p: Oversample,
    t_sb: Standby,
    filter: Filter,
    register: u8,
    status: u8,
)
    requires
        session.wf(),
        ({
            ||| session.ops == seq![bmp280::wait_op()]
            ||| session.ops == bmp280::init_ops(mode, os_t, os_p, t_sb, filter)
            ||| session.ops == bmp280::reading_ops(true, register)
            ||| session.ops == bmp280::measure_ops(true)
            ||| session.ops == bmp280::force_ops(true)
        }),
        session.request() == Some(RequestView::Read { address: session.address, len: 1 }),
    ensures
        ({
            let index = session.status->index as int;
            let after = session.answered(ReplyView::Data(seq![status]));
            let again = after.answered(ReplyView::Done);
            &&& after.fetched == session.fetched
            &&& status / 8 % 2 == 0 ==> bus_laws::passed(after, index)
            &&& status / 8 % 2 == 1 ==> {
                &&& after.request() == Some(RequestView::Delay(10))
                &&& again.fetched == session.fetched
                &&& again.request() == Some(
                    RequestView::Write { address: session.address, bytes: seq![0xF3u8] },
                )
                &&& again.answered(ReplyView::Done) == session
            }
        }),
{
    assert((status & 8 == 0) == (status / 8 % 2 == 0)) by (bit_vector);
    let index = session.status->index as int;
    let op = session.ops[index];
    assert(op == bmp280::wait_op()) by {
        assert(0 <= index < session.ops.len());
        assert(op is Fetch ==> op->Fetch_len != 1);
    }
}

/// What a complete measurement says is what was read in it, whatever the sensor's history. The
/// temperature's raw value is that of the bytes that the bus answered to the read behind register
/// 0xFA, and its numbers are the sensor's. The pressure's raw value is that of the bytes read
/// behind register 0xF7, and it goes with that same temperature, which the sensor keeps from then
/// on.
pub proof fn law_measurement_reports_what_was_read(
    sensor: SensorView,
    forced: bool,
    replies: Seq<ReplyView>,
) -> (at: (int, int))
    requires
        ({
            let ops = if forced {
                bmp280::force_ops(sensor.calibrated())
            } else {
                bmp280::measure_ops(sensor.calibrated())
            };
            let start = SessionView::start(sensor.address, ops);
            &&& bus_laws::all_fit(start, replies)
            &&& bus_laws::run(start, replies).status == Status::Finished(Outcome::Complete)
        }),
    ensures
        ({
            let ops = if forced {
                bmp280::force_ops(sensor.calibrated())
            } else {
                bmp280::measure_ops(sensor.calibrated())
            };
            let start = SessionView::start(sensor.address, ops);
            let session = bus_laws::run(start, replies);
            let result = sensor.measurement_of(session);
            let a = replies[at.0]->Data_0;
            let b = replies[at.1]->Data_0;
            &&& bus_laws::fetched_at(start, replies, 0xFA, 3, a, at.0)
            &&& bus_laws::fetched_at(start, replies, 0xF7, 3, b, at.1)
            &&& a.len() == 3
            &&& b.len() == 3
            &&& result is Ok
            &&& sensor.calibration is Some
            &&& result->Ok_0.0.raw == a[0] * 0x1000 + a[1] * 0x10 + a[2] % 0x10
            &&& result->Ok_0.0.t == sensor.calibration->0.t
            &&& result->Ok_0.1.raw == b[0] * 0x1000 + b[1] * 0x10 + b[2] % 0x10
            &&& result->Ok_0.1.p == sensor.calibration->0.p
            &&& result->Ok_0.1.fine == Some(result->Ok_0.0)
            &&& sensor.after_measurement(session).fine == Some(result->Ok_0.0)
            &&& sensor.after_measurement(session).calibration == sensor.calibration
            &&& sensor.after_measurement(session).address == sensor.address
        }),
{
    let calibrated = sensor.calibrated();
    let ops = if forced {
        bmp280::force_ops(calibrated)
    } else {
        bmp280::measure_ops(calibrated)
    };
    let start = SessionView::start(sensor.address, ops);
    let session = bus_laws::run(start, replies);
    bus::lemma_start_wf(sensor.address, ops);
    bus_laws::lemma_run(start, replies);
    bmp280::lemma_measurement(session, calibrated);
    let first: int = if forced {
        2
    } else {
        1
    };
    assert(ops[first] == bmp280::fetch_op(TEMP, READING_LEN));
    assert(ops[first + 2] == bmp280::fetch_op(PRESSURE, READING_LEN));
    reveal_with_fuel(bus::fetch_lens, 6);
    assert(bus::fetch_lens(ops.take(first)).len() == 0);
    assert(bus::fetch_lens(ops.take(first + 2)).len() == 1);
    let i = bus_laws::law_fetched_bytes_are_the_answer(start, replies, first);
    let j = bus_laws::law_fetched_bytes_are_the_answer(start, replies, first + 2);
    (i, j)
}

/// Two measurements by one sensor, whatever came between them that left its calibration as it was:
/// their temperatures differ by as much as the bytes read in them do.
pub proof fn law_measurements_differ_as_their_bytes_do(
    before: SensorView,
    later: SensorView,
    a: SessionView,
    b: SessionView,
)
    requires
        a.status == Status::Finished(Outcome::Complete),
        b.status == Status::Finished(Outcome::Complete),
        a.fetched.len() == 2,
        b.fetched.len() == 2,
        forall|i: int| 0 <= i < 2 ==> (#[trigger] a.fetched[i]).len() == READING_LEN,
        forall|i: int| 0 <= i < 2 ==> (#[trigger] b.fetched[i]).len() == READING_LEN,
        before.calibration == later.calibration,
    ensures
        ({
            let x = before.measurement_of(a)->Ok_0;
            let y = later.measurement_of(b)->Ok_0;
            let s = a.fetched;
            let t = b.fetched;
            &&& before.measurement_of(a) is Ok
            &&& later.measurement_of(b) is Ok
            &&& y.0.raw - x.0.raw == (t[0][0] - s[0][0]) * 0x1000 + (t[0][1] - s[0][1]) * 0x10 + (
            t[0][2] % 0x10 - s[0][2] % 0x10)
            &&& y.1.raw - x.1.raw == (t[1][0] - s[1][0]) * 0x1000 + (t[1][1] - s[1][1]) * 0x10 + (
            t[1][2] % 0x10 - s[1][2] % 0x10)
            &&& x.1.fine == Some(x.0)
            &&& y.1.fine == Some(y.0)
            &&& x.0.t == y.0.t
            &&& x.1.p == y.1.p
        }),
{
    assert(a.fetched[0].len() == 3 && a.fetched[1].len() == 3);
    assert(b.fetched[0].len() == 3 && b.fetched[1].len() == 3);
}

} // verus!
