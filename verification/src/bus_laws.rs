//! What holds of whole conversations on the bus.

use crate::bus;
use crate::bus::{OpView, Outcome, Phase, ReplyView, RequestView, SessionView, Status};
use vstd::prelude::*;

verus! {

/// The session after a number of replies.
pub open spec fn run(session: SessionView, replies: Seq<ReplyView>) -> SessionView
    decreases replies.len(),
{
    if replies.len() == 0 {
        session
    } else {
        run(session.answered(replies[0]), replies.drop_first())
    }
}

/// Each reply is one that the session's request at that point can get.
pub open spec fn all_fit(session: SessionView, replies: Seq<ReplyView>) -> bool
    decreases replies.len(),
{
    replies.len() > 0 ==> {
        &&& session.request() is Some
        &&& bus::fits(session.request()->0, replies[0])
        &&& all_fit(session.answered(replies[0]), replies.drop_first())
    }
}

/// The requests that these replies answer, in order.
pub open spec fn issued(session: SessionView, replies: Seq<ReplyView>) -> Seq<RequestView>
    decreases replies.len(),
{
    if replies.len() == 0 {
        Seq::empty()
    } else {
        seq![session.request()->0] + issued(session.answered(replies[0]), replies.drop_first())
    }
}

/// A phase as a number that falls within one attempt.
pub open spec fn rank(phase: Phase) -> nat {
    match phase {
        Phase::Select => 2,
        Phase::Transfer => 1,
        Phase::Pause => 0,
    }
}

/// The requests of one operation from a phase on, with `busy` unsuccessful polls to come.
pub open spec fn op_traffic(address: u8, op: OpView, phase: Phase, busy: nat) -> Seq<RequestView>
    decreases busy, rank(phase),
{
    let now = seq![op.request(address, phase)];
    match phase {
        Phase::Select => now + op_traffic(address, op, Phase::Transfer, busy),
        Phase::Transfer => if busy == 0 {
            now
        } else {
            now + op_traffic(address, op, Phase::Pause, busy)
        },
        Phase::Pause => if busy == 0 {
            now
        } else {
            now + op_traffic(address, op, op.first_phase(), (busy - 1) as nat)
        },
    }
}

/// The requests of all operations from `index` on, where the poll at position `i` finds the device
/// busy `busy[i]` times. Nothing is asked behind a halt.
pub open spec fn traffic(address: u8, ops: Seq<OpView>, index: int, busy: Seq<nat>) -> Seq<
    RequestView,
>
    decreases ops.len() - index,
{
    if index >= ops.len() || ops[index] is Halt {
        Seq::empty()
    } else {
        op_traffic(address, ops[index], ops[index].first_phase(), busy[index]) + traffic(
            address,
            ops,
            index + 1,
            busy,
        )
    }
}

/// The requests that a session still has to make.
pub open spec fn remaining(session: SessionView, busy: Seq<nat>) -> Seq<RequestView> {
    match session.status {
        Status::Finished(_) => Seq::empty(),
        Status::Running { index, phase } => op_traffic(
            session.address,
            session.ops[index as int],
            phase,
            busy[index as int],
        ) + traffic(session.address, session.ops, index + 1, busy),
    }
}

/// Busy counts for these operations: only polls can find the device busy.
pub open spec fn counts(ops: Seq<OpView>, busy: Seq<nat>) -> bool {
    &&& busy.len() == ops.len()
    &&& forall|i: int| 0 <= i < ops.len() && (#[trigger] busy[i]) > 0 ==> ops[i] is Poll
}

/// Traffic depends on the counts from its index on alone.
proof fn lemma_traffic_local(address: u8, ops: Seq<OpView>, index: int, a: Seq<nat>, b: Seq<nat>)
    requires
        0 <= index,
        forall|i: int| index <= i < ops.len() ==> a[i] == b[i],
    ensures
        traffic(address, ops, index, a) == traffic(address, ops, index, b),
    decreases ops.len() - index,
{
    if index < ops.len() && !(ops[index] is Halt) {
        lemma_traffic_local(address, ops, index + 1, a, b);
    }
}

/// A session that has just moved on to the operation at `index` has the traffic from there to do.
proof fn lemma_remaining_at(session: SessionView, index: int, busy: Seq<nat>)
    requires
        0 <= index <= session.ops.len() <= usize::MAX,
        session.status == bus::status_at(session.ops, index),
    ensures
        remaining(session, busy) == traffic(session.address, session.ops, index, busy),
{
}

/// The requests of any run, step by step.
proof fn lemma_issued(session: SessionView, replies: Seq<ReplyView>) -> (busy: Seq<nat>)
    requires
        session.wf(),
        session.ops.len() <= usize::MAX,
        all_fit(session, replies),
    ensures
        counts(session.ops, busy),
        session.status matches Status::Running { index, phase } ==> {
            &&& forall|i: int| 0 <= i < index ==> busy[i] == 0
            &&& phase is Pause ==> busy[index as int] > 0
        },
        session.status is Finished ==> forall|i: int| 0 <= i < session.ops.len() ==> busy[i] == 0,
        issued(session, replies).is_prefix_of(remaining(session, busy)),
        run(session, replies).status matches Status::Finished(outcome) ==> outcome is Failed
            || issued(session, replies) == remaining(session, busy),
    decreases replies.len(),
{
    let zeros = Seq::new(session.ops.len(), |i: int| 0nat);
    match session.status {
        Status::Finished(_) => {
            assert(issued(session, replies) =~= remaining(session, zeros));
            assert(remaining(session, zeros).subrange(0, 0) =~= issued(session, replies));
            zeros
        },
        Status::Running { index, phase } => {
            let at = index as int;
            let op = session.ops[at];
            let default = if phase is Pause {
                zeros.update(at, 1)
            } else {
                zeros
            };
            if replies.len() == 0 {
                assert(remaining(session, default).subrange(0, 0) =~= issued(session, replies));
                default
            } else {
                let reply = replies[0];
                let after = session.answered(reply);
                let others = replies.drop_first();
                let asked = seq![session.request()->0];
                if reply is Failed {
                    assert(others.len() == 0) by {
                        assert(all_fit(after, others));
                        assert(after.request() is None);
                    }
                    assert(issued(session, replies) =~= asked) by {
                        assert(issued(after, others).len() == 0);
                    }
                    assert(remaining(session, default).subrange(0, 1) =~= asked);
                    assert(run(session, replies) == after) by {
                        assert(run(after, others) == after);
                    }
                    default
                } else {
                    bus::lemma_answered_wf(session, reply);
                    let later = lemma_issued(after, others);
                    let busy = if phase is Pause {
                        later.update(at, later[at] + 1)
                    } else {
                        later
                    };
                    if phase is Pause {
                        lemma_traffic_local(session.address, session.ops, at + 1, later, busy);
                    }
                    if phase is Transfer && after.status == bus::status_at(session.ops, at + 1) {
                        lemma_remaining_at(after, at + 1, busy);
                        assert(later[at] == 0);
                    }
                    let made = issued(after, others);
                    assert(remaining(session, busy) =~= asked + remaining(after, later));
                    assert(remaining(after, later).subrange(0, made.len() as int) == made);
                    assert((asked + remaining(after, later)).subrange(0, made.len() as int + 1)
                        =~= asked + made);
                    busy
                }
            }
        },
    }
}

/// These busy counts explain a conversation: the requests made are the first ones of the
/// operations' traffic, and all of it when the conversation ended without a bus error.
pub open spec fn explains(
    busy: Seq<nat>,
    address: u8,
    ops: Seq<OpView>,
    replies: Seq<ReplyView>,
) -> bool {
    let session = SessionView::start(address, ops);
    let requests = issued(session, replies);
    let whole = traffic(address, ops, 0, busy);
    &&& counts(ops, busy)
    &&& requests.is_prefix_of(whole)
    &&& run(session, replies).status matches Status::Finished(outcome) ==> outcome is Failed
        || requests == whole
}

/// A conversation asks for what its operations say and for nothing else. Whatever the replies, the
/// requests made are the first ones of the operations' traffic, for some number of times that
/// each poll found the device busy; a conversation that ends without a bus error has made them
/// all.
pub proof fn law_traffic(address: u8, ops: Seq<OpView>, replies: Seq<ReplyView>)
    requires
        ops.len() <= usize::MAX,
        all_fit(SessionView::start(address, ops), replies),
    ensures
        exists|busy: Seq<nat>| explains(busy, address, ops, replies),
{
    let session = SessionView::start(address, ops);
    bus::lemma_start_wf(address, ops);
    let busy = lemma_issued(session, replies);
    lemma_remaining_at(session, 0, busy);
    assert(explains(busy, address, ops, replies));
}

/// A bus error ends a conversation at once: nothing more is asked, and what was fetched stays.
pub proof fn law_bus_error_ends_session(session: SessionView)
    requires
        session.request() is Some,
    ensures
        session.answered(ReplyView::Failed).status == Status::Finished(Outcome::Failed),
        session.answered(ReplyView::Failed).request() is None,
        session.answered(ReplyView::Failed).fetched == session.fetched,
{
}

/// A poll ends exactly when a byte comes in whose masked bits are all clear; any other byte leads
/// to a pause and then to another attempt.
pub proof fn law_poll_ends_when_ready(session: SessionView, bytes: Seq<u8>)
    requires
        session.wf(),
        session.ops.len() <= usize::MAX,
        session.status matches Status::Running { index, phase } && session.ops[index as int] is Poll
            && phase is Transfer,
        bytes.len() == 1,
    ensures
        ({
            let index = session.status->index;
            let op = session.ops[index as int];
            let after = session.answered(ReplyView::Data(bytes));
            let again = after.answered(ReplyView::Done);
            if bytes[0] & op->mask == 0 {
                after == session.with_status(bus::status_at(session.ops, index + 1))
            } else {
                &&& after.request() == Some(RequestView::Delay(op->pause))
                &&& again == session.with_status(
                    Status::Running { index, phase: op.first_phase() },
                )
            }
        }),
{
}

/// Fitting replies keep a session well formed and leave its address and operations as they are.
/// What was fetched stays in front of what is fetched later.
pub proof fn lemma_run(session: SessionView, replies: Seq<ReplyView>)
    requires
        session.wf(),
        session.ops.len() <= usize::MAX,
        all_fit(session, replies),
    ensures
        run(session, replies).wf(),
        run(session, replies).address == session.address,
        run(session, replies).ops == session.ops,
        session.fetched.len() <= run(session, replies).fetched.len(),
        forall|i: int|
            0 <= i < session.fetched.len() ==> run(session, replies).fetched[i]
                == #[trigger] session.fetched[i],
    decreases replies.len(),
{
    if replies.len() > 0 {
        let after = session.answered(replies[0]);
        bus::lemma_answered_wf(session, replies[0]);
        lemma_run(after, replies.drop_first());
        let end = run(session, replies);
        assert forall|i: int| 0 <= i < session.fetched.len() implies end.fetched[i]
            == #[trigger] session.fetched[i] by {
            assert(after.fetched[i] == session.fetched[i]);
        }
    }
}

/// One of these replies is a bus error.
pub open spec fn some_failed(replies: Seq<ReplyView>) -> bool {
    exists|i: int| 0 <= i < replies.len() && #[trigger] replies[i] is Failed
}

/// A conversation fails exactly when the bus reports an error in it.
pub proof fn law_fails_exactly_on_a_bus_error(session: SessionView, replies: Seq<ReplyView>)
    requires
        session.wf(),
        session.ops.len() <= usize::MAX,
        session.status != Status::Finished(Outcome::Failed),
        all_fit(session, replies),
    ensures
        run(session, replies).status == Status::Finished(Outcome::Failed) <==> some_failed(replies),
    decreases replies.len(),
{
    if replies.len() > 0 {
        let after = session.answered(replies[0]);
        let others = replies.drop_first();
        if replies[0] is Failed {
            assert(others.len() == 0) by {
                assert(all_fit(after, others));
                assert(after.request() is None);
            }
            assert(run(after, others) == after);
        } else {
            bus::lemma_answered_wf(session, replies[0]);
            law_fails_exactly_on_a_bus_error(after, others);
            if some_failed(others) {
                let i = choose|i: int| 0 <= i < others.len() && #[trigger] others[i] is Failed;
                assert(replies[i + 1] is Failed);
            }
            if some_failed(replies) {
                let i = choose|i: int| 0 <= i < replies.len() && #[trigger] replies[i] is Failed;
                assert(others[i - 1] is Failed);
            }
        }
    }
}

/// A conversation that ends with a fetch and comes to its end has fetched the last reply last.
pub proof fn lemma_last_fetch(session: SessionView, replies: Seq<ReplyView>)
    requires
        session.wf(),
        session.ops.len() <= usize::MAX,
        all_fit(session, replies),
        session.status is Running,
        session.ops.last() is Fetch,
        run(session, replies).status == Status::Finished(Outcome::Complete),
    ensures
        replies.len() > 0,
        replies.last() is Data,
        run(session, replies).fetched.len() > 0,
        run(session, replies).fetched.last() == replies.last()->Data_0,
    decreases replies.len(),
{
    if replies.len() > 0 {
        let after = session.answered(replies[0]);
        let others = replies.drop_first();
        bus::lemma_answered_wf(session, replies[0]);
        if others.len() == 0 {
            assert(run(after, others) == after);
        } else {
            assert(all_fit(after, others));
            lemma_last_fetch(after, others);
            assert(others.last() == replies.last());
        }
    }
}

/// A conversation begins with its first operation, at the address given, with nothing fetched. It
/// is over at once when there is none, and given up at once when the first says so.
pub proof fn law_start(address: u8, ops: Seq<OpView>)
    requires
        ops.len() <= usize::MAX,
    ensures
        ({
            let session = SessionView::start(address, ops);
            &&& session.address == address
            &&& session.ops == ops
            &&& session.fetched.len() == 0
            &&& ops.len() == 0 ==> session.status == Status::Finished(Outcome::Complete)
            &&& ops.len() > 0 ==> begins(session, 0)
        }),
{
}

/// The session stands at the beginning of the operation at `index`: it is given up when that
/// operation says so; the register comes first where the operation names one.
pub open spec fn begins(session: SessionView, index: int) -> bool {
    let address = session.address;
    match session.ops[index] {
        OpView::Halt => session.status == Status::Finished(Outcome::Halted),
        OpView::Write(bytes) => session.status == (Status::Running {
            index: index as usize,
            phase: Phase::Transfer,
        }) && session.request() == Some(RequestView::Write { address, bytes }),
        OpView::Delay(millis) => session.status == (Status::Running {
            index: index as usize,
            phase: Phase::Transfer,
        }) && session.request() == Some(RequestView::Delay(millis)),
        OpView::Poll { register: Some(register), .. } => session.status == (Status::Running {
            index: index as usize,
            phase: Phase::Select,
        }) && session.request() == Some(RequestView::Write { address, bytes: seq![register] }),
        OpView::Poll { register: None, .. } => session.status == (Status::Running {
            index: index as usize,
            phase: Phase::Transfer,
        }) && session.request() == Some(RequestView::Read { address, len: 1 }),
        OpView::Fetch { register: Some(register), .. } => session.status == (Status::Running {
            index: index as usize,
            phase: Phase::Select,
        }) && session.request() == Some(RequestView::Write { address, bytes: seq![register] }),
        OpView::Fetch { register: None, len } => session.status == (Status::Running {
            index: index as usize,
            phase: Phase::Transfer,
        }) && session.request() == Some(RequestView::Read { address, len }),
    }
}

/// The session stands behind the operation at `index`: at the beginning of the next, or complete
/// when there is none.
pub open spec fn passed(session: SessionView, index: int) -> bool {
    if index + 1 == session.ops.len() {
        session.status == Status::Finished(Outcome::Complete)
    } else {
        begins(session, index + 1)
    }
}

/// What follows each reply. A register that was named is followed by the read from it. A write or a
/// delay that is done is followed by the next operation, and so is a fetch, whose bytes are kept
/// behind those fetched before, as they came. Address and operations stay, and so does everything
/// fetched.
pub proof fn law_step(session: SessionView, reply: ReplyView)
    requires
        session.wf(),
        session.ops.len() <= usize::MAX,
        session.request() is Some,
        bus::fits(session.request()->0, reply),
        !(reply is Failed),
    ensures
        ({
            let index = session.status->index as int;
            let phase = session.status->phase;
            let op = session.ops[index];
            let after = session.answered(reply);
            &&& after.address == session.address
            &&& after.ops == session.ops
            &&& phase is Select ==> {
                &&& after.fetched == session.fetched
                &&& after.request() == Some(
                    RequestView::Read {
                        address: session.address,
                        len: match op {
                            OpView::Fetch { len, .. } => len,
                            _ => 1,
                        },
                    },
                )
                &&& after.status == (Status::Running {
                    index: index as usize,
                    phase: Phase::Transfer,
                })
            }
            &&& phase is Transfer && (op is Write || op is Delay) ==> {
                &&& after.fetched == session.fetched
                &&& passed(after, index)
            }
            &&& phase is Transfer && op is Fetch ==> {
                &&& reply is Data
                &&& after.fetched == session.fetched.push(reply->Data_0)
                &&& passed(after, index)
            }
            &&& phase is Transfer && op is Poll ==> {
                &&& reply is Data
                &&& after.fetched == session.fetched
                &&& if reply->Data_0[0] & op->mask == 0 {
                    passed(after, index)
                } else {
                    after.request() == Some(RequestView::Delay(op->pause))
                }
            }
            &&& phase is Pause ==> {
                &&& after.fetched == session.fetched
                &&& begins(after, index)
            }
        }),
{
}

/// The position of a reply that a fetch from a register kept: the register was named just before,
/// the read was asked for, and these bytes were the answer.
pub open spec fn fetched_at(
    session: SessionView,
    replies: Seq<ReplyView>,
    register: u8,
    len: usize,
    bytes: Seq<u8>,
    i: int,
) -> bool {
    let address = session.address;
    &&& 1 <= i < replies.len()
    &&& issued(session, replies)[i - 1] == RequestView::Write { address, bytes: seq![register] }
    &&& issued(session, replies)[i] == RequestView::Read { address, len }
    &&& replies[i] == ReplyView::Data(bytes)
}

/// What a complete conversation has fetched for the operation at `p` is what the bus answered to
/// the read that this operation asked for, behind the name of its register.
pub proof fn law_fetched_bytes_are_the_answer(
    session: SessionView,
    replies: Seq<ReplyView>,
    p: int,
) -> (i: int)
    requires
        session.wf(),
        session.ops.len() <= usize::MAX,
        all_fit(session, replies),
        run(session, replies).status == Status::Finished(Outcome::Complete),
        0 <= p < session.ops.len(),
        session.ops[p] matches OpView::Fetch { register: Some(_), .. },
        session.status matches Status::Running { index, phase } && (index < p || index == p
            && phase is Select),
    ensures
        ({
            let k = bus::fetch_lens(session.ops.take(p)).len() as int;
            let end = run(session, replies);
            &&& k < end.fetched.len()
            &&& fetched_at(
                session,
                replies,
                session.ops[p]->Fetch_register->0,
                session.ops[p]->Fetch_len,
                end.fetched[k],
                i,
            )
        }),
    decreases replies.len(),
{
    let index = session.status->index as int;
    let after = session.answered(replies[0]);
    let others = replies.drop_first();
    bus::lemma_answered_wf(session, replies[0]);
    assert(all_fit(after, others));
    assert(run(session, replies) == run(after, others));
    if replies[0] is Failed {
        assert(others.len() == 0);
        assert(run(after, others) == after);
    }
    if index == p {
        assert(others.len() > 0) by {
            if others.len() == 0 {
                assert(run(after, others) == after);
            }
        }
        let read = after.answered(others[0]);
        let more = others.drop_first();
        bus::lemma_answered_wf(after, others[0]);
        assert(all_fit(read, more));
        assert(run(after, others) == run(read, more));
        if others[0] is Failed {
            assert(more.len() == 0);
            assert(run(read, more) == read);
        }
        lemma_run(read, more);
        let k = session.fetched.len() as int;
        let got = session.fetched.map_values(|bytes: Seq<u8>| bytes.len());
        assert(got == bus::fetch_lens(session.ops.take(p)));
        assert(got.len() == k);
        assert(read.fetched == session.fetched.push(others[0]->Data_0));
        assert(read.fetched[k] == others[0]->Data_0);
        assert(issued(session, replies)[0] == session.request()->0);
        assert(issued(session, replies)[1] == issued(after, others)[0]);
        1
    } else {
        if after.status is Finished {
            lemma_halted_ends(after, others);
        }
        let i = law_fetched_bytes_are_the_answer(after, others, p);
        lemma_issued_len(after, others);
        assert(issued(session, replies)[i] == issued(after, others)[i - 1]);
        assert(issued(session, replies)[i + 1] == issued(after, others)[i]);
        assert(replies[i + 1] == others[i]);
        i + 1
    }
}

/// There is one request for each reply.
proof fn lemma_issued_len(session: SessionView, replies: Seq<ReplyView>)
    ensures
        issued(session, replies).len() == replies.len(),
    decreases replies.len(),
{
    if replies.len() > 0 {
        lemma_issued_len(session.answered(replies[0]), replies.drop_first());
    }
}

/// A conversation that is over gets no replies and stays as it is.
proof fn lemma_halted_ends(session: SessionView, replies: Seq<ReplyView>)
    requires
        all_fit(session, replies),
        session.status is Finished,
    ensures
        replies.len() == 0,
        run(session, replies) == session,
{
}

} // verus!
