//! Conversations with a device on a shared I2C bus.
//!
//! A driver describes what it wants as a list of operations. A session works through the list one
//! bus request at a time: it names the next request, whoever owns the bus performs it and hands
//! the reply back, and the session decides how to go on.

use vstd::prelude::*;
use vstd::slice::slice_to_vec;

verus! {

/// One step of a conversation.
pub enum Op {
    /// Write these bytes.
    Write(Vec<u8>),
    /// Do nothing for this many milliseconds.
    Delay(u64),
    /// Read one byte, from the register if one is given, until the masked bits are all clear.
    /// Pause for this many milliseconds between two attempts.
    Poll { register: Option<u8>, mask: u8, pause: u64 },
    /// Read this many bytes, from the register if one is given, and keep them.
    Fetch { register: Option<u8>, len: usize },
    /// Give up: nothing behind this step is done.
    Halt,
}

/// An operation as a mathematical value.
pub enum OpView {
    Write(Seq<u8>),
    Delay(u64),
    Poll { register: Option<u8>, mask: u8, pause: u64 },
    Fetch { register: Option<u8>, len: usize },
    Halt,
}

impl View for Op {
    type V = OpView;

    open spec fn view(&self) -> OpView {
        match *self {
            Op::Write(bytes) => OpView::Write(bytes@),
            Op::Delay(millis) => OpView::Delay(millis),
            Op::Poll { register, mask, pause } => OpView::Poll { register, mask, pause },
            Op::Fetch { register, len } => OpView::Fetch { register, len },
            Op::Halt => OpView::Halt,
        }
    }
}

/// The views of a list of operations.
pub open spec fn op_views(ops: Seq<Op>) -> Seq<OpView> {
    ops.map_values(|op: Op| op@)
}

/// What a session asks for next.
pub enum Request {
    /// Write these bytes to the device at this address.
    Write { address: u8, bytes: Vec<u8> },
    /// Read this many bytes from the device at this address.
    Read { address: u8, len: usize },
    /// Wait for this many milliseconds.
    Delay(u64),
}

/// A request as a mathematical value.
pub enum RequestView {
    Write { address: u8, bytes: Seq<u8> },
    Read { address: u8, len: usize },
    Delay(u64),
}

impl View for Request {
    type V = RequestView;

    open spec fn view(&self) -> RequestView {
        match *self {
            Request::Write { address, bytes } => RequestView::Write { address, bytes: bytes@ },
            Request::Read { address, len } => RequestView::Read { address, len },
            Request::Delay(millis) => RequestView::Delay(millis),
        }
    }
}

/// How a request went.
pub enum Reply {
    /// The bytes were written, or the time has passed.
    Done,
    /// The bytes that were read.
    Data(Vec<u8>),
    /// The bus reported an error.
    Failed,
}

/// A reply as a mathematical value.
pub enum ReplyView {
    Done,
    Data(Seq<u8>),
    Failed,
}

impl View for Reply {
    type V = ReplyView;

    open spec fn view(&self) -> ReplyView {
        match *self {
            Reply::Done => ReplyView::Done,
            Reply::Data(bytes) => ReplyView::Data(bytes@),
            Reply::Failed => ReplyView::Failed,
        }
    }
}

/// The reply is one that the request can get: a write succeeds or fails, a read yields as many
/// bytes as were asked for or fails, and a delay just ends.
pub open spec fn fits(request: RequestView, reply: ReplyView) -> bool {
    match request {
        RequestView::Write { .. } => reply is Done || reply is Failed,
        RequestView::Read { len, .. } => match reply {
            ReplyView::Data(bytes) => bytes.len() == len,
            ReplyView::Done => false,
            ReplyView::Failed => true,
        },
        RequestView::Delay(_) => reply is Done,
    }
}

/// Which part of an operation is under way.
#[derive(Clone, Copy, Debug, PartialEq, Eq, Structural)]
pub enum Phase {
    /// The register number is being written.
    Select,
    /// The operation's own transfer or delay.
    Transfer,
    /// The pause between two polls.
    Pause,
}

/// How a session ended.
#[derive(Clone, Copy, Debug, PartialEq, Eq, Structural)]
pub enum Outcome {
    /// Every operation was done.
    Complete,
    /// An operation said to give up.
    Halted,
    /// The bus reported an error.
    Failed,
}

/// Where a session stands.
#[derive(Clone, Copy, Debug, PartialEq, Eq, Structural)]
pub enum Status {
    /// At this operation, in this phase of it.
    Running { index: usize, phase: Phase },
    /// At the end.
    Finished(Outcome),
}

impl OpView {
    /// The register that the operation reads from, if it names one.
    pub open spec fn register(self) -> Option<u8> {
        match self {
            OpView::Poll { register, .. } => register,
            OpView::Fetch { register, .. } => register,
            _ => None,
        }
    }

    /// The phase in which the operation begins.
    pub open spec fn first_phase(self) -> Phase {
        if self.register() is Some {
            Phase::Select
        } else {
            Phase::Transfer
        }
    }

    /// The operation has such a phase.
    pub open spec fn has_phase(self, phase: Phase) -> bool {
        match phase {
            Phase::Select => self.register() is Some,
            Phase::Transfer => !(self is Halt),
            Phase::Pause => self is Poll,
        }
    }

    /// What the operation asks of the bus in a phase that it has.
    pub open spec fn request(self, address: u8, phase: Phase) -> RequestView {
        match phase {
            Phase::Select => RequestView::Write { address, bytes: seq![self.register()->0] },
            Phase::Transfer => match self {
                OpView::Write(bytes) => RequestView::Write { address, bytes },
                OpView::Delay(millis) => RequestView::Delay(millis),
                OpView::Poll { .. } => RequestView::Read { address, len: 1 },
                OpView::Fetch { len, .. } => RequestView::Read { address, len },
                OpView::Halt => arbitrary(),
            },
            Phase::Pause => RequestView::Delay(self->pause),
        }
    }
}

/// Where a session stands that has done the first `index` operations.
pub open spec fn status_at(ops: Seq<OpView>, index: int) -> Status {
    if index >= ops.len() {
        Status::Finished(Outcome::Complete)
    } else if ops[index] is Halt {
        Status::Finished(Outcome::Halted)
    } else {
        Status::Running { index: index as usize, phase: ops[index].first_phase() }
    }
}

/// The byte counts of the fetches among these operations.
pub open spec fn fetch_lens(ops: Seq<OpView>) -> Seq<nat>
    decreases ops.len(),
{
    if ops.len() == 0 {
        Seq::empty()
    } else {
        match ops.last() {
            OpView::Fetch { len, .. } => fetch_lens(ops.drop_last()).push(len as nat),
            _ => fetch_lens(ops.drop_last()),
        }
    }
}

/// One of these operations says to give up.
pub open spec fn halts(ops: Seq<OpView>) -> bool {
    exists|i: int| 0 <= i < ops.len() && #[trigger] ops[i] is Halt
}

/// A session as a mathematical value.
pub struct SessionView {
    pub address: u8,
    pub ops: Seq<OpView>,
    pub status: Status,
    pub fetched: Seq<Seq<u8>>,
}

impl SessionView {
    /// A session at the start of its operations.
    pub open spec fn start(address: u8, ops: Seq<OpView>) -> SessionView {
        SessionView { address, ops, status: status_at(ops, 0), fetched: Seq::empty() }
    }

    /// The operations that are done.
    pub open spec fn done(self) -> Seq<OpView> {
        match self.status {
            Status::Running { index, .. } => self.ops.take(index as int),
            Status::Finished(_) => self.ops,
        }
    }

    /// The lengths of what was fetched are the lengths that were asked for.
    pub open spec fn fetched_as_asked(self) -> bool {
        let lens = fetch_lens(self.done());
        let got = self.fetched.map_values(|bytes: Seq<u8>| bytes.len());
        match self.status {
            Status::Running { .. } => got == lens,
            Status::Finished(Outcome::Complete) => got == lens,
            Status::Finished(_) => got.is_prefix_of(lens),
        }
    }

    /// A running session is at an operation, in a phase that the operation has, and has fetched
    /// what the operations before it ask for. A session that comes to a halt goes no further.
    pub open spec fn wf(self) -> bool {
        &&& self.fetched_as_asked()
        &&& match self.status {
            Status::Running { .. } => !halts(self.done()),
            Status::Finished(Outcome::Complete) => !halts(self.ops),
            Status::Finished(Outcome::Halted) => halts(self.ops),
            Status::Finished(Outcome::Failed) => true,
        }
        &&& self.status matches Status::Running { index, phase } ==> {
            &&& index < self.ops.len()
            &&& self.ops[index as int].has_phase(phase)
        }
    }

    /// What the session asks of the bus, while it is not finished.
    pub open spec fn request(self) -> Option<RequestView> {
        match self.status {
            Status::Running { index, phase } => Some(
                self.ops[index as int].request(self.address, phase),
            ),
            Status::Finished(_) => None,
        }
    }

    /// The session with another status.
    pub open spec fn with_status(self, status: Status) -> SessionView {
        SessionView { address: self.address, ops: self.ops, status, fetched: self.fetched }
    }

    /// The session after the reply to its request.
    pub open spec fn answered(self, reply: ReplyView) -> SessionView {
        match self.status {
            Status::Finished(_) => self,
            Status::Running { index, phase } => {
                let op = self.ops[index as int];
                let next = status_at(self.ops, index + 1);
                match reply {
                    ReplyView::Failed => self.with_status(Status::Finished(Outcome::Failed)),
                    ReplyView::Done => match phase {
                        Phase::Select => self.with_status(
                            Status::Running { index, phase: Phase::Transfer },
                        ),
                        Phase::Transfer => self.with_status(next),
                        Phase::Pause => self.with_status(
                            Status::Running { index, phase: op.first_phase() },
                        ),
                    },
                    ReplyView::Data(bytes) => match op {
                        OpView::Poll { mask, .. } => if bytes[0] & mask == 0 {
                            self.with_status(next)
                        } else {
                            self.with_status(Status::Running { index, phase: Phase::Pause })
                        },
                        _ => SessionView {
                            address: self.address,
                            ops: self.ops,
                            status: next,
                            fetched: self.fetched.push(bytes),
                        },
                    },
                }
            },
        }
    }
}

/// The byte sequences of a list of vectors.
pub open spec fn byte_views(list: Seq<Vec<u8>>) -> Seq<Seq<u8>> {
    list.map_values(|bytes: Vec<u8>| bytes@)
}

/// A conversation with the device at one address.
pub struct Session {
    address: u8,
    ops: Vec<Op>,
    status: Status,
    fetched: Vec<Vec<u8>>,
}

impl View for Session {
    type V = SessionView;

    closed spec fn view(&self) -> SessionView {
        SessionView {
            address: self.address,
            ops: op_views(self.ops@),
            status: self.status,
            fetched: byte_views(self.fetched@),
        }
    }
}

impl Op {
    /// The phase in which the operation begins.
    fn first_phase(&self) -> (result: Phase)
        ensures
            result == self@.first_phase(),
    {
        match self {
            Op::Poll { register: Some(_), .. } => Phase::Select,
            Op::Fetch { register: Some(_), .. } => Phase::Select,
            _ => Phase::Transfer,
        }
    }
}

/// A list of one byte.
fn single(byte: u8) -> (result: Vec<u8>)
    ensures
        result@ == seq![byte],
{
    let mut result: Vec<u8> = Vec::new();
    result.push(byte);
    assert(result@ =~= seq![byte]);
    result
}

impl Session {
    /// A session at the start of its operations.
    pub fn new(address: u8, ops: Vec<Op>) -> (result: Self)
        ensures
            result@ == SessionView::start(address, op_views(ops@)),
            result@.wf(),
            result@.address == address,
            result@.fetched.len() == 0,
            result@.ops.len() == ops@.len(),
            forall|i: int|
                0 <= i < ops@.len() ==> #[trigger] result@.ops[i] == match ops@[i] {
                    Op::Write(bytes) => OpView::Write(bytes@),
                    Op::Delay(millis) => OpView::Delay(millis),
                    Op::Poll { register, mask, pause } => OpView::Poll { register, mask, pause },
                    Op::Fetch { register, len } => OpView::Fetch { register, len },
                    Op::Halt => OpView::Halt,
                },
    {
        let status = Self::status_at(&ops, 0);
        let result = Session { address, ops, status, fetched: Vec::new() };
        proof {
            assert(result.ops.len() <= usize::MAX);
            assert(result@.fetched =~= Seq::<Seq<u8>>::empty());
            lemma_start_wf(result@.address, result@.ops);
        }
        result
    }

    /// Where a session stands that has done the first `index` operations.
    fn status_at(ops: &Vec<Op>, index: usize) -> (result: Status)
        ensures
            result == status_at(op_views(ops@), index as int),
    {
        if index >= ops.len() {
            return Status::Finished(Outcome::Complete);
        }
        match &ops[index] {
            Op::Halt => Status::Finished(Outcome::Halted),
            op => Status::Running { index, phase: op.first_phase() },
        }
    }

    /// What to do next on the bus; nothing when the session is finished.
    pub fn request(&self) -> (result: Option<Request>)
        requires
            self@.wf(),
        ensures
            match result {
                Some(request) => self@.request() == Some(request@),
                None => self@.request() is None,
            },
            match result {
                Some(Request::Write { address, bytes }) => {
                    &&& address == self@.address
                    &&& self@.request() == Some(RequestView::Write { address, bytes: bytes@ })
                },
                Some(Request::Read { address, len }) => {
                    &&& address == self@.address
                    &&& self@.request() == Some(RequestView::Read { address, len })
                },
                Some(Request::Delay(millis)) => self@.request() == Some(RequestView::Delay(millis)),
                None => self@.status is Finished,
            },
    {
        let address: u8 = self.address;
        match self.status {
            Status::Finished(_) => None,
            Status::Running { index, phase } => {
                assert(self@.ops[index as int] == self.ops[index as int]@);
                Some(
                    match &self.ops[index] {
                        Op::Write(bytes) => Request::Write {
                            address,
                            bytes: slice_to_vec(bytes.as_slice()),
                        },
                        Op::Delay(millis) => Request::Delay(*millis),
                        Op::Poll { register, pause, .. } => match phase {
                            Phase::Select => Request::Write {
                                address,
                                bytes: single(register.unwrap()),
                            },
                            Phase::Transfer => Request::Read { address, len: 1 },
                            Phase::Pause => Request::Delay(*pause),
                        },
                        Op::Fetch { register, len } => match phase {
                            Phase::Select => Request::Write {
                                address,
                                bytes: single(register.unwrap()),
                            },
                            _ => Request::Read { address, len: *len },
                        },
                        Op::Halt => return None,
                    },
                )
            },
        }
    }

    /// Takes in the reply to the current request and decides how to go on.
    pub fn reply(&mut self, reply: Reply)
        requires
            old(self)@.wf(),
            old(self)@.request() is Some,
            fits(old(self)@.request()->0, reply@),
        ensures
            final(self)@ == old(self)@.answered(reply@),
            final(self)@.wf(),
            final(self)@ == old(self)@.answered(
                match reply {
                    Reply::Done => ReplyView::Done,
                    Reply::Data(bytes) => ReplyView::Data(bytes@),
                    Reply::Failed => ReplyView::Failed,
                },
            ),
            final(self)@.address == old(self)@.address,
            final(self)@.ops == old(self)@.ops,
    {
        proof {
            assert(self.ops.len() <= usize::MAX);
            lemma_answered_wf(self@, reply@);
        }
        if let Status::Running { index, phase } = self.status {
            let ghost before = self@;
            assert(self@.ops[index as int] == self.ops[index as int]@);
            match reply {
                Reply::Failed => {
                    self.status = Status::Finished(Outcome::Failed);
                },
                Reply::Done => {
                    self.status = match phase {
                        Phase::Select => Status::Running { index, phase: Phase::Transfer },
                        Phase::Transfer => Self::status_at(&self.ops, index + 1),
                        Phase::Pause => Status::Running {
                            index,
                            phase: self.ops[index].first_phase(),
                        },
                    };
                },
                Reply::Data(bytes) => {
                    let next = Self::status_at(&self.ops, index + 1);
                    match &self.ops[index] {
                        Op::Poll { mask, .. } => {
                            self.status = if bytes[0] & *mask == 0 {
                                next
                            } else {
                                Status::Running { index, phase: Phase::Pause }
                            };
                        },
                        _ => {
                            self.status = next;
                            let ghost data = bytes@;
                            self.fetched.push(bytes);
                            assert(self@.fetched =~= before.fetched.push(data));
                        },
                    }
                },
            }
        }
    }

    /// How the session ended, once it has.
    pub fn outcome(&self) -> (result: Option<Outcome>)
        ensures
            match result {
                Some(outcome) => self@.status == Status::Finished(outcome),
                None => self@.status is Running,
            },
    {
        match self.status {
            Status::Finished(outcome) => Some(outcome),
            Status::Running { .. } => None,
        }
    }

    /// What the fetches have read so far, in order.
    pub fn fetched(&self) -> (result: &Vec<Vec<u8>>)
        ensures
            byte_views(result@) == self@.fetched,
            result@.len() == self@.fetched.len(),
            forall|i: int|
                0 <= i < result@.len() ==> (#[trigger] result@[i])@ == self@.fetched[i],
    {
        &self.fetched
    }
}

/// A session at its start is well formed.
pub proof fn lemma_start_wf(address: u8, ops: Seq<OpView>)
    requires
        ops.len() <= usize::MAX,
    ensures
        SessionView::start(address, ops).wf(),
{
    let view = SessionView::start(address, ops);
    let got = view.fetched.map_values(|bytes: Seq<u8>| bytes.len());
    assert(got =~= Seq::<nat>::empty());
    assert(ops.take(0) =~= Seq::<OpView>::empty());
    assert(got.is_prefix_of(fetch_lens(ops))) by {
        assert(fetch_lens(ops).subrange(0, 0) =~= got);
    }
}

/// The fetches of the first operations come first.
proof fn lemma_fetch_lens_prefix(ops: Seq<OpView>, index: int)
    requires
        0 <= index <= ops.len(),
    ensures
        fetch_lens(ops.take(index)).is_prefix_of(fetch_lens(ops)),
    decreases ops.len() - index,
{
    if index == ops.len() {
        assert(ops.take(index) =~= ops);
        assert(fetch_lens(ops).subrange(0, fetch_lens(ops).len() as int) =~= fetch_lens(ops));
    } else {
        lemma_fetch_lens_prefix(ops, index + 1);
        assert(ops.take(index + 1).drop_last() =~= ops.take(index));
        let short = fetch_lens(ops.take(index));
        let longer = fetch_lens(ops.take(index + 1));
        let whole = fetch_lens(ops);
        assert(whole.subrange(0, longer.len() as int) == longer);
        assert(whole.subrange(0, short.len() as int) =~= short) by {
            assert(whole.subrange(0, short.len() as int) =~= longer.subrange(
                0,
                short.len() as int,
            ));
        }
    }
}

/// What a session has fetched has the lengths that its operations ask for, and all of it is there
/// when the session is complete.
pub proof fn lemma_fetched(session: SessionView)
    requires
        session.wf(),
    ensures
        ({
            let lens = fetch_lens(session.ops);
            &&& session.fetched.len() <= lens.len()
            &&& forall|i: int|
                0 <= i < session.fetched.len() ==> (#[trigger] session.fetched[i]).len() == lens[i]
            &&& session.status == Status::Finished(Outcome::Complete) ==> session.fetched.len()
                == lens.len()
        }),
{
    let lens = fetch_lens(session.ops);
    let got = session.fetched.map_values(|bytes: Seq<u8>| bytes.len());
    if let Status::Running { index, .. } = session.status {
        lemma_fetch_lens_prefix(session.ops, index as int);
    }
    assert(got.is_prefix_of(lens)) by {
        assert(lens.subrange(0, lens.len() as int) =~= lens);
    }
    assert forall|i: int| 0 <= i < session.fetched.len() implies (
    #[trigger] session.fetched[i]).len() == lens[i] by {
        assert(got[i] == lens.subrange(0, got.len() as int)[i]);
    }
}

/// A fitting reply keeps a session well formed.
pub proof fn lemma_answered_wf(session: SessionView, reply: ReplyView)
    requires
        session.wf(),
        session.ops.len() <= usize::MAX,
        session.request() is Some,
        fits(session.request()->0, reply),
    ensures
        session.answered(reply).wf(),
{
    let ops = session.ops;
    let after = session.answered(reply);
    if let Status::Running { index, phase } = session.status {
        let op = ops[index as int];
        let lens = fetch_lens(ops.take(index as int));
        let got = session.fetched.map_values(|bytes: Seq<u8>| bytes.len());
        let got_after = after.fetched.map_values(|bytes: Seq<u8>| bytes.len());
        assert(got == lens);
        lemma_fetch_lens_prefix(ops, index as int);
        lemma_fetch_lens_prefix(ops, index + 1);
        assert(ops.take(index + 1).drop_last() =~= ops.take(index as int));
        assert(ops.take(index + 1).last() == op);
        let moved = !(reply is Failed) && phase is Transfer && after.status == status_at(
            ops,
            index + 1,
        );
        if moved {
            assert(got_after =~= fetch_lens(ops.take(index + 1)));
            if index + 1 == ops.len() {
                assert(ops.take(index + 1) =~= ops);
            }
        } else {
            assert(got_after =~= got);
        }
    }
}

} // verus!
