//! The channel that orders the messages of a module: an unbounded channel
//! of tickets, first in first out, with both of its ends held in one place.

use async_channel::{Receiver, Sender};
use vstd::prelude::*;

verus! {

/// `async_channel::Sender`: the sending end of a channel. Nothing is known
/// of it but through the names below.
#[verifier::external_type_specification]
#[verifier::external_body]
#[verifier::reject_recursive_types(T)]
pub struct ExSender<T>(Sender<T>);

/// `async_channel::Receiver`: the receiving end of a channel. Nothing is
/// known of it but through the names below.
#[verifier::external_type_specification]
#[verifier::external_body]
#[verifier::reject_recursive_types(T)]
pub struct ExReceiver<T>(Receiver<T>);

/// The tickets that wait in the channel of a receiving end, the next one
/// first.
pub uninterp spec fn waiting(receiver: Receiver<u64>) -> Seq<u64>;

/// Whether the channel of a receiving end is closed.
pub uninterp spec fn shut(receiver: Receiver<u64>) -> bool;

/// Both ends of one unbounded channel of tickets. The ends are handed to
/// nobody outside the library, so that the channel changes only through the
/// functions below.
pub struct Tickets {
    pub(crate) sender: Sender<u64>,
    pub(crate) receiver: Receiver<u64>,
}

/// `async_channel::unbounded`: a channel that is open and holds nothing.
#[verifier::external_body]
pub(crate) fn tickets_new() -> (t: Tickets)
    ensures
        waiting(t.receiver) == Seq::<u64>::empty(),
        !shut(t.receiver),
{
    let (sender, receiver) = async_channel::unbounded();
    Tickets { sender, receiver }
}

/// `Sender::try_send` on an unbounded channel: an open channel takes the
/// ticket behind those that wait, a closed one refuses it. It never waits
/// and is never full.
#[verifier::external_body]
pub(crate) fn tickets_send(t: &mut Tickets, ticket: u64) -> (accepted: bool)
    ensures
        accepted == !shut(old(t).receiver),
        shut(final(t).receiver) == shut(old(t).receiver),
        waiting(final(t).receiver) == (if accepted {
            waiting(old(t).receiver).push(ticket)
        } else {
            waiting(old(t).receiver)
        }),
{
    t.sender.try_send(ticket).is_ok()
}

/// `Receiver::try_recv`: the ticket that has waited longest leaves the
/// channel, if one waits, whether the channel is closed or not.
#[verifier::external_body]
pub(crate) fn tickets_recv(t: &mut Tickets) -> (r: Option<u64>)
    ensures
        shut(final(t).receiver) == shut(old(t).receiver),
        waiting(old(t).receiver).len() == 0 ==> r is None && waiting(final(t).receiver)
            == waiting(old(t).receiver),
        waiting(old(t).receiver).len() > 0 ==> r == Some(waiting(old(t).receiver)[0]) && waiting(
            final(t).receiver,
        ) == waiting(old(t).receiver).skip(1),
{
    t.receiver.try_recv().ok()
}

/// `Sender::close`: the channel is closed, and what waits in it stays.
/// Returns whether this call closed it.
#[verifier::external_body]
pub(crate) fn tickets_close(t: &mut Tickets) -> (r: bool)
    ensures
        r == !shut(old(t).receiver),
        shut(final(t).receiver),
        waiting(final(t).receiver) == waiting(old(t).receiver),
{
    t.sender.close()
}

/// `Receiver::len`: the number of tickets that wait.
#[verifier::external_body]
pub(crate) fn tickets_len(t: &Tickets) -> (r: usize)
    ensures
        r == waiting(t.receiver).len(),
{
    t.receiver.len()
}

/// `Receiver::is_closed`: whether the channel is closed.
#[verifier::external_body]
pub(crate) fn tickets_closed(t: &Tickets) -> (r: bool)
    ensures
        r == shut(t.receiver),
{
    t.receiver.is_closed()
}

} // verus!
