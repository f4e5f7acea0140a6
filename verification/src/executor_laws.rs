//! The task of a module among everything that may happen around it: sends,
//! dropped references, the shutdown flag, the closing of its queue. What is
//! proved here holds of every order of those events.

use crate::executor::{spec_after_receive, spec_begin_turn, MailboxView, Turn};
use vstd::prelude::*;

verus! {

/// Where the task of a module stands in its loop.
pub enum Pc<M> {
    /// At the head of the loop, before it reads the flag.
    Head,
    /// Waiting for its queue.
    Waiting,
    /// It has what the queue gave it, and has not read the flag yet.
    Received(Option<M>),
    /// It has read the flag and found it clear; the handler has not started.
    Cleared(M),
    /// The handler runs.
    Handling(M),
    /// The task has ended.
    Stopped,
}

/// A module's task with its queue, and what has happened so far.
pub struct TaskModel<M> {
    /// The flag of the system.
    pub shutting_down: bool,
    /// The queue of the module.
    pub mailbox: MailboxView<M>,
    /// Where the task stands.
    pub pc: Pc<M>,
    /// How many references to the module there are.
    pub references: nat,
    /// Every message that the queue has taken, in the order of the sends.
    pub sent: Seq<M>,
    /// Every message whose handler has run, in the order of the handlers.
    pub handled: Seq<M>,
    /// How many handlers have started while the flag was set.
    pub started_late: nat,
}

/// What may happen to a module's task.
pub enum Event<M> {
    /// A message is sent through a reference.
    Send(M),
    /// A reference is dropped.
    DropReference,
    /// The shutdown sets the flag.
    SetFlag,
    /// The shutdown closes the queue.
    CloseQueue,
    /// The task takes its next step.
    Task,
}

/// A task that has just been started, with its queue open and empty.
pub open spec fn initial<M>(references: nat) -> TaskModel<M> {
    TaskModel {
        shutting_down: false,
        mailbox: MailboxView { queue: Seq::empty(), closed: false },
        pc: Pc::Head,
        references,
        sent: Seq::empty(),
        handled: Seq::empty(),
        started_late: 0,
    }
}

/// The next step of the task.
pub open spec fn task_step<M>(s: TaskModel<M>) -> TaskModel<M> {
    match s.pc {
        Pc::Head => if spec_begin_turn(s.shutting_down) {
            TaskModel { pc: Pc::Waiting, ..s }
        } else {
            TaskModel { pc: Pc::Stopped, ..s }
        },
        Pc::Waiting => if s.mailbox.queue.len() > 0 {
            TaskModel {
                pc: Pc::Received(Some(s.mailbox.queue[0])),
                mailbox: MailboxView { queue: s.mailbox.queue.skip(1), ..s.mailbox },
                ..s
            }
        } else if s.mailbox.closed {
            TaskModel { pc: Pc::Received(None), ..s }
        } else {
            s
        },
        Pc::Received(received) => match spec_after_receive(received, s.shutting_down) {
            Turn::Handle(msg) => TaskModel { pc: Pc::Cleared(msg), ..s },
            Turn::Stop => TaskModel { pc: Pc::Stopped, ..s },
        },
        Pc::Cleared(msg) => TaskModel {
            pc: Pc::Handling(msg),
            started_late: if s.shutting_down {
                s.started_late + 1
            } else {
                s.started_late
            },
            ..s
        },
        Pc::Handling(msg) => TaskModel { pc: Pc::Head, handled: s.handled.push(msg), ..s },
        Pc::Stopped => s,
    }
}

/// What an event makes of a task and its queue.
pub open spec fn step<M>(s: TaskModel<M>, e: Event<M>) -> TaskModel<M> {
    match e {
        Event::Send(msg) => if s.mailbox.closed {
            s
        } else {
            TaskModel {
                mailbox: MailboxView { queue: s.mailbox.queue.push(msg), ..s.mailbox },
                sent: s.sent.push(msg),
                ..s
            }
        },
        Event::DropReference => TaskModel {
            references: if s.references > 0 {
                (s.references - 1) as nat
            } else {
                0
            },
            ..s
        },
        Event::SetFlag => TaskModel { shutting_down: true, ..s },
        Event::CloseQueue => TaskModel {
            mailbox: MailboxView { closed: true, ..s.mailbox },
            ..s
        },
        Event::Task => task_step(s),
    }
}

/// What a run of events makes of a task and its queue.
pub open spec fn run<M>(s: TaskModel<M>, events: Seq<Event<M>>) -> TaskModel<M>
    decreases events.len(),
{
    if events.len() == 0 {
        s
    } else {
        step(run(s, events.drop_last()), events.last())
    }
}

/// The message that the task holds, if it holds one.
pub open spec fn in_hand<M>(pc: Pc<M>) -> Seq<M> {
    match pc {
        Pc::Received(Some(msg)) => seq![msg],
        Pc::Cleared(msg) => seq![msg],
        Pc::Handling(msg) => seq![msg],
        _ => Seq::empty(),
    }
}

/// What holds of a task whatever has happened.
pub open spec fn task_invariant<M>(s: TaskModel<M>) -> bool {
    &&& !(s.pc is Stopped) ==> s.sent == s.handled + in_hand(s.pc) + s.mailbox.queue
    &&& s.handled.is_prefix_of(s.sent)
    &&& !s.shutting_down ==> s.started_late == 0
    &&& s.shutting_down && s.pc is Cleared ==> s.started_late == 0
    &&& s.shutting_down && s.started_late == 1 ==> !(s.pc is Cleared)
    &&& s.started_late == 1 ==> s.pc is Handling || s.pc is Head || s.pc is Stopped
    &&& s.started_late <= 1
    &&& s.pc is Stopped ==> s.shutting_down || s.mailbox.closed
    &&& s.pc is Received && s.pc->Received_0 is None ==> s.mailbox.closed
}

/// An event keeps what holds of a task.
pub proof fn lemma_step_keeps_invariant<M>(s: TaskModel<M>, e: Event<M>)
    requires
        task_invariant(s),
    ensures
        task_invariant(step(s, e)),
{
    let t = step(s, e);
    match e {
        Event::Send(msg) => {
            if !s.mailbox.closed {
                if !(s.pc is Stopped) {
                    assert(t.sent =~= t.handled + in_hand(t.pc) + t.mailbox.queue);
                }
                assert(t.handled.is_prefix_of(t.sent)) by {
                    assert(t.sent.subrange(0, t.handled.len() as int) =~= s.sent.subrange(
                        0,
                        s.handled.len() as int,
                    ));
                }
            }
        },
        Event::Task => {
            match s.pc {
                Pc::Waiting => {
                    if s.mailbox.queue.len() > 0 {
                        assert(t.sent =~= t.handled + in_hand(t.pc) + t.mailbox.queue);
                    }
                },
                Pc::Handling(msg) => {
                    assert(t.sent =~= t.handled + in_hand(t.pc) + t.mailbox.queue);
                    assert(t.handled.is_prefix_of(t.sent)) by {
                        assert(t.sent.subrange(0, t.handled.len() as int) =~= t.handled);
                    }
                },
                _ => {},
            }
        },
        _ => {},
    }
}

/// A run of events keeps what holds of a task.
pub proof fn lemma_run_keeps_invariant<M>(s: TaskModel<M>, events: Seq<Event<M>>)
    requires
        task_invariant(s),
    ensures
        task_invariant(run(s, events)),
    decreases events.len(),
{
    if events.len() > 0 {
        lemma_run_keeps_invariant(s, events.drop_last());
        lemma_step_keeps_invariant(run(s, events.drop_last()), events.last());
    }
}

/// First in, first out: whatever happens, the messages that the handlers of
/// a module have seen are the first of those that were sent to it, in the
/// order of the sends. Until the task stops no message is lost: what was
/// sent is what was handled, what the task holds, and what waits.
pub proof fn lemma_fifo<M>(references: nat, events: Seq<Event<M>>)
    ensures
        run(initial::<M>(references), events).handled.is_prefix_of(
            run(initial::<M>(references), events).sent,
        ),
        ({
            let s = run(initial::<M>(references), events);
            !(s.pc is Stopped) ==> s.sent == s.handled + in_hand(s.pc) + s.mailbox.queue
        }),
{
    let s = initial::<M>(references);
    assert(s.sent =~= s.handled + in_hand(s.pc) + s.mailbox.queue);
    assert(s.sent.subrange(0, 0) =~= s.handled);
    lemma_run_keeps_invariant(s, events);
}

/// At most one after shutdown: whatever happens, at most one handler of a
/// module starts after the flag was set, and none starts before it was.
pub proof fn lemma_max_one_after_shutdown<M>(references: nat, events: Seq<Event<M>>)
    ensures
        run(initial::<M>(references), events).started_late <= 1,
        !run(initial::<M>(references), events).shutting_down ==> run(
            initial::<M>(references),
            events,
        ).started_late == 0,
{
    let s = initial::<M>(references);
    assert(s.sent =~= s.handled + in_hand(s.pc) + s.mailbox.queue);
    assert(s.sent.subrange(0, 0) =~= s.handled);
    lemma_run_keeps_invariant(s, events);
}

/// Shutdown completes what is in flight: a handler that runs is not cut
/// short. Whatever the flag and the queue, the next step of the task is the
/// end of the handler, with its message handled.
pub proof fn lemma_handler_completes<M>(s: TaskModel<M>, msg: M)
    requires
        s.pc == Pc::Handling(msg),
    ensures
        task_step(s).handled == s.handled.push(msg),
        task_step(s).pc == Pc::<M>::Head,
        step(TaskModel { shutting_down: true, ..s }, Event::Task).handled == s.handled.push(msg),
        step(step(s, Event::CloseQueue), Event::Task).handled == s.handled.push(msg),
{
}

/// A dropped reference does not stop the module: it changes nothing but the
/// number of references, and a task never stops unless the system shuts
/// down or its queue was closed.
pub proof fn lemma_reference_drop<M>(references: nat, events: Seq<Event<M>>)
    ensures
        ({
            let s = run(initial::<M>(references), events);
            let t = step(s, Event::DropReference);
            &&& t.pc == s.pc
            &&& t.mailbox == s.mailbox
            &&& t.shutting_down == s.shutting_down
            &&& t.handled == s.handled
            &&& task_step(t) == (TaskModel { references: t.references, ..task_step(s) })
            &&& s.pc is Stopped ==> s.shutting_down || s.mailbox.closed
        }),
{
    let s = initial::<M>(references);
    assert(s.sent =~= s.handled + in_hand(s.pc) + s.mailbox.queue);
    assert(s.sent.subrange(0, 0) =~= s.handled);
    lemma_run_keeps_invariant(s, events);
}

/// After the shutdown no handler starts on what still waits: once the flag
/// is set and the task is not about to start a handler, no handler starts
/// any more, however many messages wait. The one that runs, if one does,
/// is the last.
pub proof fn lemma_no_start_after_flag<M>(s: TaskModel<M>, events: Seq<Event<M>>)
    requires
        s.shutting_down,
        !(s.pc is Cleared),
    ensures
        run(s, events).shutting_down,
        !(run(s, events).pc is Cleared),
        run(s, events).started_late == s.started_late,
        run(s, events).pc is Handling ==> s.pc == run(s, events).pc && run(s, events).handled
            == s.handled,
        !(run(s, events).pc is Handling) ==> run(s, events).handled == s.handled + in_hand_running(
            s.pc,
        ),
    decreases events.len(),
{
    if events.len() > 0 {
        lemma_no_start_after_flag(s, events.drop_last());
        let before = run(s, events.drop_last());
        let after = run(s, events);
        assert(after == step(before, events.last()));
        if !(after.pc is Handling) {
            if before.pc is Handling {
                assert(after.handled =~= s.handled + in_hand_running(s.pc));
            }
        }
    } else {
        assert(s.handled =~= s.handled + Seq::<M>::empty());
    }
}

/// The message whose handler runs, if one runs.
pub open spec fn in_hand_running<M>(pc: Pc<M>) -> Seq<M> {
    match pc {
        Pc::Handling(msg) => seq![msg],
        _ => Seq::empty(),
    }
}

} // verus!
