//! The module executor: what the task of a module decides at each turn, the
//! queue that feeds it, and the record that a system keeps of its tasks.
//!
//! A module handles one message at a time, in the order in which they were
//! sent. Whoever runs the tasks awaits between the decisions that stand here.

use crate::channel::{
    shut, tickets_close, tickets_closed, tickets_len, tickets_new, tickets_recv, tickets_send,
    waiting, Tickets,
};
use std::collections::HashMap;
use vstd::prelude::*;
use vstd::std_specs::hash::group_hash_axioms;

verus! {

broadcast use group_hash_axioms;

/// Anything that can be sent to a module.
pub trait Message: core::marker::Send + 'static {

}

impl<T: core::marker::Send + 'static> Message for T {

}

/// A trait for modules capable of handling messages of type `M`.
pub trait Handler<M: Message> {
    /// What the handler may make of the module: `after` is a state in which
    /// it may leave the module `self` when it is given `msg`. A module that
    /// says nothing of itself leaves this as it is: any state.
    open spec fn handled(&self, msg: M, after: &Self) -> bool {
        true
    }

    /// Handles the message.
    fn handle(&mut self, msg: M)
        ensures
            old(self).handled(msg, final(self)),
    ;
}

/// The message sent as a result of a request for ticks.
#[derive(Debug, Clone)]
pub struct Tick {}

/// What the task of a module does with its turn.
pub enum Turn<M> {
    /// Hand the message to its handler, and take the next turn when the
    /// handler is done.
    Handle(M),
    /// End the task.
    Stop,
}

/// Whether a task takes another turn: not once the system shuts down.
pub open spec fn spec_begin_turn(shutting_down: bool) -> bool {
    !shutting_down
}

/// What a task does with what its queue gave it: it stops where the queue
/// is closed and empty, and where the system shuts down, in which case the
/// message is dropped.
pub open spec fn spec_after_receive<M>(received: Option<M>, shutting_down: bool) -> Turn<M> {
    match received {
        Some(msg) => if shutting_down {
            Turn::Stop
        } else {
            Turn::Handle(msg)
        },
        None => Turn::Stop,
    }
}

/// Whether a task takes another turn, given the flag as it reads it at the
/// head of its loop.
pub fn begin_turn(shutting_down: bool) -> (r: bool)
    ensures
        r == spec_begin_turn(shutting_down),
{
    !shutting_down
}

/// What a task does with what its queue gave it, given the flag as it reads
/// it then.
pub fn after_receive<M>(received: Option<M>, shutting_down: bool) -> (r: Turn<M>)
    ensures
        r == spec_after_receive(received, shutting_down),
{
    match received {
        Some(msg) => {
            if shutting_down {
                Turn::Stop
            } else {
                Turn::Handle(msg)
            }
        },
        None => Turn::Stop,
    }
}

/// Whether the emitter of ticks sends another one: not once the system shuts
/// down.
pub fn tick_begin_turn(shutting_down: bool) -> (r: bool)
    ensures
        r == !shutting_down,
{
    !shutting_down
}

/// Whether the emitter of ticks goes on after a tick: not once the queue did
/// not take it.
pub fn tick_after_send(accepted: bool) -> (r: bool)
    ensures
        r == accepted,
{
    accepted
}

/// Hands a message to the module that handles it: the module is left as
/// its handler leaves it.
pub fn get_handled<T: Handler<M>, M: Message>(msg: M, module: &mut T)
    ensures
        old(module).handled(msg, final(module)),
{
    module.handle(msg)
}

/// The queue of a module: unbounded, first in first out, and closed for
/// good at shutdown. An unbounded channel orders the messages by their
/// tickets; the messages themselves wait here, each under its ticket.
pub struct Mailbox<M> {
    tickets: Tickets,
    messages: HashMap<u64, M>,
    next: u64,
}

/// What a mailbox holds.
pub struct MailboxView<M> {
    /// The messages that wait, the next one first.
    pub queue: Seq<M>,
    /// No message is taken any more.
    pub closed: bool,
}

impl<M> View for Mailbox<M> {
    type V = MailboxView<M>;

    closed spec fn view(&self) -> MailboxView<M> {
        let order = waiting(self.tickets.receiver);
        MailboxView {
            queue: Seq::new(order.len(), |i: int| self.messages@[order[i]]),
            closed: shut(self.tickets.receiver),
        }
    }
}

impl<M> Mailbox<M> {
    /// Every ticket that waits has its message, no ticket waits twice, and
    /// every ticket was handed out.
    pub closed spec fn wf(&self) -> bool {
        let order = waiting(self.tickets.receiver);
        &&& forall|i: int|
            0 <= i < order.len() ==> self.messages@.dom().contains(#[trigger] order[i]) && order[i]
                < self.next
        &&& forall|i: int, j: int| 0 <= i < j < order.len() ==> order[i] != order[j]
    }

    /// The number of messages that the mailbox has taken since it was made.
    pub closed spec fn taken(&self) -> nat {
        self.next as nat
    }

    /// An open mailbox without messages.
    pub fn new() -> (r: Self)
        ensures
            r.wf(),
            r.taken() == 0,
            r@ == (MailboxView { queue: Seq::<M>::empty(), closed: false }),
    {
        let r = Mailbox { tickets: tickets_new(), messages: HashMap::new(), next: 0 };
        assert(r@.queue =~= Seq::<M>::empty());
        r
    }

    /// Puts the message behind those that wait. A closed mailbox takes
    /// nothing: the message is dropped, and the sender is told so by `false`.
    pub fn send(&mut self, msg: M) -> (accepted: bool)
        requires
            old(self).wf(),
            old(self).taken() < u64::MAX,
        ensures
            final(self).wf(),
            accepted == !old(self)@.closed,
            accepted ==> final(self).taken() == old(self).taken() + 1 && final(self)@ == (
            MailboxView { queue: old(self)@.queue.push(msg), ..old(self)@ }),
            !accepted ==> final(self).taken() == old(self).taken() && final(self)@ == old(self)@,
    {
        let ghost before = waiting(self.tickets.receiver);
        let ghost held = self.messages@;
        let ticket = self.next;
        let accepted = tickets_send(&mut self.tickets, ticket);
        if accepted {
            self.messages.insert(ticket, msg);
            self.next = ticket + 1;
            proof {
                let order = waiting(self.tickets.receiver);
                assert(order == before.push(ticket));
                assert forall|i: int| 0 <= i < before.len() implies before[i] != ticket by {
                    assert(held.dom().contains(before[i]) && before[i] < ticket);
                }
                assert(self@.queue =~= old(self)@.queue.push(msg));
            }
        }
        accepted
    }

    /// Closes the mailbox. The messages that wait can still be received.
    /// Returns whether this call closed it.
    pub fn close(&mut self) -> (r: bool)
        requires
            old(self).wf(),
        ensures
            final(self).wf(),
            final(self).taken() == old(self).taken(),
            r == !old(self)@.closed,
            final(self)@ == (MailboxView { closed: true, ..old(self)@ }),
    {
        tickets_close(&mut self.tickets)
    }

    /// Takes the message that has waited longest, if one waits.
    pub fn recv(&mut self) -> (r: Option<M>)
        requires
            old(self).wf(),
        ensures
            final(self).wf(),
            final(self).taken() == old(self).taken(),
            old(self)@.queue.len() == 0 ==> r is None && final(self)@ == old(self)@,
            old(self)@.queue.len() > 0 ==> r == Some(old(self)@.queue[0]) && final(self)@ == (
            MailboxView { queue: old(self)@.queue.skip(1), ..old(self)@ }),
    {
        let ghost before = waiting(self.tickets.receiver);
        match tickets_recv(&mut self.tickets) {
            Some(ticket) => {
                let r = self.messages.remove(&ticket);
                proof {
                    let order = waiting(self.tickets.receiver);
                    assert(order == before.skip(1));
                    assert(ticket == before[0]);
                    assert forall|i: int| 0 <= i < order.len() implies #[trigger] order[i]
                        != ticket && self.messages@.dom().contains(order[i]) && order[i]
                        < self.next by {
                        assert(order[i] == before[i + 1]);
                    }
                    assert forall|i: int, j: int| 0 <= i < j < order.len() implies order[i]
                        != order[j] by {
                        assert(order[i] == before[i + 1]);
                        assert(order[j] == before[j + 1]);
                    }
                    assert(self@.queue =~= old(self)@.queue.skip(1)) by {
                        assert forall|i: int| 0 <= i < order.len() implies self.messages@[order[i]]
                            == old(self).messages@[before[i + 1]] by {
                            assert(order[i] == before[i + 1]);
                        }
                    }
                }
                r
            },
            None => None,
        }
    }

    /// The number of messages that wait.
    pub fn len(&self) -> (r: usize)
        ensures
            r == self@.queue.len(),
    {
        tickets_len(&self.tickets)
    }

    /// Whether the mailbox is closed.
    pub fn is_closed(&self) -> (r: bool)
        ensures
            r == self@.closed,
    {
        tickets_closed(&self.tickets)
    }
}

/// The module `after` is `before` as its handlers may leave it when they
/// are given the messages one after the other, each when the one before it
/// is done.
pub open spec fn handled_all<T: Handler<M>, M: Message>(before: T, msgs: Seq<M>, after: T) -> bool
    decreases msgs.len(),
{
    if msgs.len() == 0 {
        before == after
    } else {
        exists|mid: T|
            handled_all(before, msgs.drop_last(), mid) && #[trigger] mid.handled(
                msgs.last(),
                &after,
            )
    }
}

/// Runs the task of a module on one thread, where nothing else happens
/// meanwhile: turn by turn over what the mailbox holds, until the task stops.
/// Returns how many messages were handled: all that waited, in their order,
/// or none where the system shuts down.
pub fn run_task<T: Handler<M>, M: Message>(
    module: &mut T,
    mailbox: &mut Mailbox<M>,
    shutting_down: bool,
) -> (handled: usize)
    requires
        old(mailbox).wf(),
    ensures
        final(mailbox).wf(),
        final(mailbox).taken() == old(mailbox).taken(),
        final(mailbox)@.closed == old(mailbox)@.closed,
        shutting_down ==> handled == 0 && final(mailbox)@ == old(mailbox)@ && *final(module)
            == *old(module),
        !shutting_down ==> handled == old(mailbox)@.queue.len() && final(mailbox)@.queue.len()
            == 0 && handled_all(*old(module), old(mailbox)@.queue, *final(module)),
{
    let count = mailbox.len();
    let mut handled: usize = 0;
    while begin_turn(shutting_down)
        invariant
            count == old(mailbox)@.queue.len(),
            mailbox.wf(),
            mailbox.taken() == old(mailbox).taken(),
            mailbox@.closed == old(mailbox)@.closed,
            handled + mailbox@.queue.len() == old(mailbox)@.queue.len(),
            mailbox@.queue == old(mailbox)@.queue.skip(handled as int),
            handled_all(*old(module), old(mailbox)@.queue.take(handled as int), *module),
            shutting_down ==> handled == 0 && mailbox@ == old(mailbox)@ && *module == *old(module),
        ensures
            mailbox.wf(),
            mailbox.taken() == old(mailbox).taken(),
            mailbox@.closed == old(mailbox)@.closed,
            shutting_down ==> handled == 0 && mailbox@ == old(mailbox)@ && *module == *old(module),
            !shutting_down ==> handled == old(mailbox)@.queue.len() && mailbox@.queue.len() == 0
                && handled_all(*old(module), old(mailbox)@.queue, *module),
        decreases mailbox@.queue.len(),
    {
        let received = mailbox.recv();
        match after_receive(received, shutting_down) {
            Turn::Handle(msg) => {
                let ghost before = *module;
                get_handled(msg, module);
                proof {
                    let all = old(mailbox)@.queue;
                    let now = all.take(handled + 1);
                    assert(now.drop_last() =~= all.take(handled as int));
                    assert(now.last() == msg);
                    assert(before.handled(now.last(), &*module));
                    assert(mailbox@.queue =~= all.skip(handled + 1));
                }
                handled = handled + 1;
            },
            Turn::Stop => {
                proof {
                    let all = old(mailbox)@.queue;
                    assert(all.take(handled as int) =~= all);
                }
                break ;
            },
        }
    }
    handled
}

/// What a system keeps of itself: whether it shuts down, and how many tasks
/// it has started, each with a queue to close and a task to wait for.
pub struct System {
    shutting_down: bool,
    tasks: usize,
}

/// What a system keeps of itself.
pub struct SystemView {
    pub shutting_down: bool,
    pub tasks: nat,
}

impl View for System {
    type V = SystemView;

    closed spec fn view(&self) -> SystemView {
        SystemView { shutting_down: self.shutting_down, tasks: self.tasks as nat }
    }
}

impl System {
    /// Creates a new instance of the system: running, without tasks.
    pub fn new() -> (r: Self)
        ensures
            r@ == (SystemView { shutting_down: false, tasks: 0 }),
    {
        System { shutting_down: false, tasks: 0 }
    }

    /// Whether the system shuts down, or has done so.
    pub fn is_shutting_down(&self) -> (r: bool)
        ensures
            r == self@.shutting_down,
    {
        self.shutting_down
    }

    /// The number of tasks that the system has started.
    pub fn tasks(&self) -> (r: usize)
        ensures
            r == self@.tasks,
    {
        self.tasks
    }

    /// Records the task of a new module and returns its place among the
    /// tasks. Not to be called on a system that shuts down.
    pub fn register_module(&mut self) -> (task: usize)
        requires
            !old(self)@.shutting_down,
            old(self)@.tasks < usize::MAX,
        ensures
            task == old(self)@.tasks,
            final(self)@ == (SystemView { tasks: old(self)@.tasks + 1, ..old(self)@ }),
    {
        let task = self.tasks;
        self.tasks = self.tasks + 1;
        task
    }

    /// Records the task that emits ticks for a module and returns its place
    /// among the tasks. Not to be called on a system that shuts down.
    pub fn request_tick(&mut self) -> (task: usize)
        requires
            !old(self)@.shutting_down,
            old(self)@.tasks < usize::MAX,
        ensures
            task == old(self)@.tasks,
            final(self)@ == (SystemView { tasks: old(self)@.tasks + 1, ..old(self)@ }),
    {
        let task = self.tasks;
        self.tasks = self.tasks + 1;
        task
    }

    /// Begins the shutdown: sets the flag, and returns how many tasks there
    /// are. The queue of each is then to be closed and the task waited for,
    /// in the order in which they were started. Not to be called twice.
    pub fn shutdown(&mut self) -> (tasks: usize)
        requires
            !old(self)@.shutting_down,
        ensures
            tasks == old(self)@.tasks,
            final(self)@ == (SystemView { shutting_down: true, ..old(self)@ }),
    {
        self.shutting_down = true;
        self.tasks
    }
}

} // verus!
