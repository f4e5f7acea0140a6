//! The register client: where a system message goes, as which bytes, and
//! which messages are sent again until they are answered.

use crate::domain::{
    RegisterCommand, RegisterCommandView, SystemCommandView, SystemRegisterCommand,
    SystemRegisterCommandContent,
};
use crate::register::{Broadcast, Phase, Send};
use crate::transfer::{command_frame, serialize_register_command, well_sized, TransferError};
use vstd::prelude::*;

verus! {

/// Where a message for a process goes.
#[derive(Debug, Clone, Copy, PartialEq, Eq, Structural)]
pub enum Route {
    /// To the register of this process, without the network.
    Local,
    /// To the process whose location stands at `index` in the list of
    /// locations.
    Remote { index: usize },
    /// There is no such process.
    Nowhere,
}

/// Where a message for the process of rank `target` goes, from the process
/// of rank `self_rank` among `processes_count`. Ranks start at 1.
pub open spec fn spec_route(target: usize, self_rank: u8, processes_count: usize) -> Route {
    if target == 0 || target > processes_count {
        Route::Nowhere
    } else if target == self_rank {
        Route::Local
    } else {
        Route::Remote { index: (target - 1) as usize }
    }
}

/// Where a message for the process of rank `target` goes.
pub fn route(target: usize, self_rank: u8, processes_count: usize) -> (r: Route)
    ensures
        r == spec_route(target, self_rank, processes_count),
{
    if target == 0 || target > processes_count {
        Route::Nowhere
    } else if target == self_rank as usize {
        Route::Local
    } else {
        Route::Remote { index: target - 1 }
    }
}

/// The bytes that carry a message to another process: its frame under the
/// system key, or the refusal of a message whose sector is not of one page.
pub fn send_frame(msg: &Send, hmac_system_key: &[u8]) -> (r: Result<Vec<u8>, TransferError>)
    ensures
        well_sized(RegisterCommandView::System(msg.cmd@)) ==> r is Ok && r->Ok_0@
            == command_frame(RegisterCommandView::System(msg.cmd@), hmac_system_key@),
        !well_sized(RegisterCommandView::System(msg.cmd@)) ==> r == Err::<
            Vec<u8>,
            TransferError,
        >(TransferError::InvalidData),
{
    let mut writer: Vec<u8> = Vec::new();
    let cmd = RegisterCommand::System(msg.cmd.duplicate());
    match serialize_register_command(&cmd, &mut writer, hmac_system_key) {
        Ok(()) => {
            assert(writer@ =~= command_frame(cmd@, hmac_system_key@));
            Ok(writer)
        },
        Err(e) => Err(e),
    }
}

/// A broadcast as a message for each process, the sender included, from
/// rank 1 up.
pub open spec fn spec_fan_out(cmd: SystemCommandView, processes_count: usize) -> Seq<
    (usize, SystemCommandView),
> {
    Seq::new(processes_count as nat, |i: int| ((i + 1) as usize, cmd))
}

/// A message with its target, as a pair.
pub open spec fn sends_view(sends: Seq<Send>) -> Seq<(usize, SystemCommandView)> {
    Seq::new(sends.len(), |i: int| (sends[i].target, sends[i].cmd@))
}

/// A broadcast as a message for each process, the sender included, from
/// rank 1 up.
pub fn fan_out(msg: &Broadcast, processes_count: usize) -> (r: Vec<Send>)
    ensures
        sends_view(r@) == spec_fan_out(msg.cmd@, processes_count),
{
    let mut sends: Vec<Send> = Vec::new();
    let mut target: usize = 0;
    while target < processes_count
        invariant
            target <= processes_count,
            sends@.len() == target,
            forall|i: int|
                0 <= i < target ==> (#[trigger] sends@[i]).target == i + 1 && sends@[i].cmd@
                    == msg.cmd@,
        decreases processes_count - target,
    {
        target = target + 1;
        sends.push(Send { cmd: msg.cmd.clone(), target });
    }
    assert(sends_view(sends@) =~= spec_fan_out(msg.cmd@, processes_count));
    sends
}

/// A message that is sent again until it is answered: a `ReadProc` or a
/// `WriteProc`. A `Value` or an `Ack` is sent once.
pub open spec fn is_retried(cmd: SystemCommandView) -> bool {
    cmd.content is ReadProc || cmd.content is WriteProc
}

/// `reply` answers the message `sent` to the process `target`: it comes
/// from that process, for the same read and sector, as the `Value` for a
/// `ReadProc` or the `Ack` for a `WriteProc`.
pub open spec fn answers(reply: SystemCommandView, target: usize, sent: SystemCommandView) -> bool {
    &&& reply.header.process_identifier == target
    &&& reply.header.read_ident == sent.header.read_ident
    &&& reply.header.sector_idx == sent.header.sector_idx
    &&& (reply.content is Value && sent.content is ReadProc) || (reply.content is Ack
        && sent.content is WriteProc)
}

/// The messages that wait for an answer, each with its target, the oldest
/// first.
pub struct RetryTracker {
    waiting: Vec<Send>,
}

impl View for RetryTracker {
    type V = Seq<(usize, SystemCommandView)>;

    closed spec fn view(&self) -> Seq<(usize, SystemCommandView)> {
        sends_view(self.waiting@)
    }
}

/// What waits after a broadcast: for a message that is retried, also that
/// message for every process.
pub open spec fn after_broadcast(
    waiting: Seq<(usize, SystemCommandView)>,
    cmd: SystemCommandView,
    processes_count: usize,
) -> Seq<(usize, SystemCommandView)> {
    if is_retried(cmd) {
        waiting + spec_fan_out(cmd, processes_count)
    } else {
        waiting
    }
}

/// What waits after a reply: what the reply does not answer.
pub open spec fn after_reply(waiting: Seq<(usize, SystemCommandView)>, reply: SystemCommandView)
    -> Seq<(usize, SystemCommandView)> {
    waiting.filter(|e: (usize, SystemCommandView)| !answers(reply, e.0, e.1))
}

/// The message `sent` needs no answer any more once `phase` has ended for
/// the read `read_ident` on the sector `sector_idx`: it belongs to that read
/// on that sector, and is the `ReadProc` of its read phase, or any message
/// of it once the write phase, and with it the operation, has ended.
pub open spec fn ended_by(sent: SystemCommandView, read_ident: u64, sector_idx: u64, phase: Phase)
    -> bool {
    &&& sent.header.read_ident == read_ident
    &&& sent.header.sector_idx == sector_idx
    &&& phase is Write || sent.content is ReadProc
}

/// What waits after the end of a phase: what the end of the phase does not
/// settle.
pub open spec fn after_phase_end(
    waiting: Seq<(usize, SystemCommandView)>,
    read_ident: u64,
    sector_idx: u64,
    phase: Phase,
) -> Seq<(usize, SystemCommandView)> {
    waiting.filter(|e: (usize, SystemCommandView)| !ended_by(e.1, read_ident, sector_idx, phase))
}

impl RetryTracker {
    /// A tracker for which nothing waits.
    pub fn new() -> (r: Self)
        ensures
            r@ == Seq::<(usize, SystemCommandView)>::empty(),
    {
        let r = RetryTracker { waiting: Vec::new() };
        assert(r@ =~= Seq::<(usize, SystemCommandView)>::empty());
        r
    }

    /// Notes a broadcast that has gone out.
    pub fn broadcast(&mut self, msg: &Broadcast, processes_count: usize)
        ensures
            final(self)@ == after_broadcast(old(self)@, msg.cmd@, processes_count),
    {
        let retried = match &msg.cmd.content {
            SystemRegisterCommandContent::ReadProc => true,
            SystemRegisterCommandContent::WriteProc { .. } => true,
            _ => false,
        };
        if retried {
            let mut sends = fan_out(msg, processes_count);
            let ghost before = self.waiting@;
            let ghost added = sends@;
            self.waiting.append(&mut sends);
            assert(sends_view(before + added) =~= sends_view(before) + sends_view(added));
        }
    }

    /// Notes a message that has come in: what it answers waits no longer.
    pub fn received(&mut self, reply: &SystemRegisterCommand)
        ensures
            final(self)@ == after_reply(old(self)@, reply@),
    {
        let is_value = match &reply.content {
            SystemRegisterCommandContent::Value { .. } => true,
            _ => false,
        };
        let is_ack = match &reply.content {
            SystemRegisterCommandContent::Ack => true,
            _ => false,
        };
        let ghost pred = |e: (usize, SystemCommandView)| !answers(reply@, e.0, e.1);
        let mut kept: Vec<Send> = Vec::new();
        let mut i: usize = 0;
        let n = self.waiting.len();
        while i < n
            invariant
                i <= n,
                n == self.waiting@.len(),
                self.waiting@ == old(self).waiting@,
                sends_view(kept@) == sends_view(self.waiting@).subrange(0, i as int).filter(pred),
                pred == |e: (usize, SystemCommandView)| !answers(reply@, e.0, e.1),
                is_value == (reply@.content is Value),
                is_ack == (reply@.content is Ack),
            decreases n - i,
        {
            let entry = &self.waiting[i];
            let answered = entry.target == reply.header.process_identifier as usize
                && entry.cmd.header.read_ident == reply.header.read_ident
                && entry.cmd.header.sector_idx == reply.header.sector_idx && ((is_value && match &entry.cmd.content {
                SystemRegisterCommandContent::ReadProc => true,
                _ => false,
            }) || (is_ack && match &entry.cmd.content {
                SystemRegisterCommandContent::WriteProc { .. } => true,
                _ => false,
            }));
            proof {
                let all = sends_view(self.waiting@);
                let next = all.subrange(0, i + 1);
                reveal(Seq::filter);
                assert(next.drop_last() =~= all.subrange(0, i as int));
                assert(next.last() == (entry.target, entry.cmd@));
                assert(answered == answers(reply@, entry.target, entry.cmd@));
            }
            if !answered {
                let ghost before = kept@;
                kept.push(Send { cmd: entry.cmd.clone(), target: entry.target });
                assert(sends_view(kept@) =~= sends_view(before).push((entry.target, entry.cmd@)));
            }
            i = i + 1;
        }
        assert(sends_view(self.waiting@).subrange(0, n as int) =~= sends_view(self.waiting@));
        self.waiting = kept;
    }

    /// Notes that the register has ended a phase of the read `read_ident` on
    /// the sector `sector_idx`: the messages of that phase wait no longer.
    /// Messages of other reads and of other sectors wait on.
    pub fn phase_ended(&mut self, read_ident: u64, sector_idx: u64, phase: Phase)
        ensures
            final(self)@ == after_phase_end(old(self)@, read_ident, sector_idx, phase),
    {
        let ghost pred = |e: (usize, SystemCommandView)|
            !ended_by(e.1, read_ident, sector_idx, phase);
        let whole = match phase {
            Phase::Write => true,
            Phase::Read => false,
        };
        let mut kept: Vec<Send> = Vec::new();
        let mut i: usize = 0;
        let n = self.waiting.len();
        while i < n
            invariant
                i <= n,
                n == self.waiting@.len(),
                self.waiting@ == old(self).waiting@,
                sends_view(kept@) == sends_view(self.waiting@).subrange(0, i as int).filter(pred),
                pred == |e: (usize, SystemCommandView)|
                    !ended_by(e.1, read_ident, sector_idx, phase),
                whole == (phase is Write),
            decreases n - i,
        {
            let entry = &self.waiting[i];
            let is_read_proc = match &entry.cmd.content {
                SystemRegisterCommandContent::ReadProc => true,
                _ => false,
            };
            let ended = entry.cmd.header.read_ident == read_ident && entry.cmd.header.sector_idx
                == sector_idx && (whole || is_read_proc);
            proof {
                let all = sends_view(self.waiting@);
                let next = all.subrange(0, i + 1);
                reveal(Seq::filter);
                assert(next.drop_last() =~= all.subrange(0, i as int));
                assert(next.last() == (entry.target, entry.cmd@));
                assert(ended == ended_by(entry.cmd@, read_ident, sector_idx, phase));
            }
            if !ended {
                let ghost before = kept@;
                kept.push(Send { cmd: entry.cmd.clone(), target: entry.target });
                assert(sends_view(kept@) =~= sends_view(before).push((entry.target, entry.cmd@)));
            }
            i = i + 1;
        }
        assert(sends_view(self.waiting@).subrange(0, n as int) =~= sends_view(self.waiting@));
        self.waiting = kept;
    }

    /// The messages to send again now: all that wait, the oldest first.
    pub fn due(&self) -> (r: Vec<Send>)
        ensures
            sends_view(r@) == self@,
    {
        let mut sends: Vec<Send> = Vec::new();
        let mut i: usize = 0;
        let n = self.waiting.len();
        while i < n
            invariant
                i <= n,
                n == self.waiting@.len(),
                sends_view(sends@) == sends_view(self.waiting@).subrange(0, i as int),
            decreases n - i,
        {
            let entry = &self.waiting[i];
            let ghost before = sends@;
            sends.push(Send { cmd: entry.cmd.clone(), target: entry.target });
            assert(sends_view(sends@) =~= sends_view(before).push((entry.target, entry.cmd@)));
            assert(sends_view(self.waiting@).subrange(0, i + 1) =~= sends_view(
                self.waiting@,
            ).subrange(0, i as int).push((entry.target, entry.cmd@)));
            i = i + 1;
        }
        assert(sends_view(self.waiting@).subrange(0, n as int) =~= sends_view(self.waiting@));
        sends
    }

    /// The number of messages that wait.
    pub fn len(&self) -> (r: usize)
        ensures
            r == self@.len(),
    {
        self.waiting.len()
    }
}

/// After a broadcast of a message that is retried, the message waits for
/// every process.
pub proof fn lemma_broadcast_waits_for_all(
    waiting: Seq<(usize, SystemCommandView)>,
    cmd: SystemCommandView,
    processes_count: usize,
    target: usize,
)
    requires
        is_retried(cmd),
        1 <= target <= processes_count,
    ensures
        after_broadcast(waiting, cmd, processes_count).contains((target, cmd)),
{
    let all = after_broadcast(waiting, cmd, processes_count);
    assert(all[waiting.len() + target - 1] == (target, cmd));
}

/// A message waits until it is answered: after a reply, what waited and is
/// not answered by the reply still waits, and what it answers waits no
/// longer. Nothing new waits.
pub proof fn lemma_reply_removes_what_it_answers(
    waiting: Seq<(usize, SystemCommandView)>,
    reply: SystemCommandView,
    entry: (usize, SystemCommandView),
)
    ensures
        after_reply(waiting, reply).contains(entry) <==> waiting.contains(entry) && !answers(
            reply,
            entry.0,
            entry.1,
        ),
{
    let pred = |e: (usize, SystemCommandView)| !answers(reply, e.0, e.1);
    let kept = waiting.filter(pred);
    if kept.contains(entry) {
        waiting.lemma_filter_contains_rev(pred, entry);
        let i = choose|i: int| 0 <= i < kept.len() && kept[i] == entry;
        waiting.lemma_filter_pred(pred, i);
    }
    if waiting.contains(entry) && !answers(reply, entry.0, entry.1) {
        let i = choose|i: int| 0 <= i < waiting.len() && waiting[i] == entry;
        waiting.lemma_filter_contains(pred, i);
    }
}

/// The end of a phase settles the messages of that phase and no others:
/// after it, what waited and is not of the read, the sector and the phase
/// that ended still waits, and nothing else does.
pub proof fn lemma_phase_end_removes_its_messages(
    waiting: Seq<(usize, SystemCommandView)>,
    read_ident: u64,
    sector_idx: u64,
    phase: Phase,
    entry: (usize, SystemCommandView),
)
    ensures
        after_phase_end(waiting, read_ident, sector_idx, phase).contains(entry)
            <==> waiting.contains(entry) && !ended_by(entry.1, read_ident, sector_idx, phase),
{
    let pred = |e: (usize, SystemCommandView)| !ended_by(e.1, read_ident, sector_idx, phase);
    let kept = waiting.filter(pred);
    if kept.contains(entry) {
        waiting.lemma_filter_contains_rev(pred, entry);
        let i = choose|i: int| 0 <= i < kept.len() && kept[i] == entry;
        waiting.lemma_filter_pred(pred, i);
    }
    if waiting.contains(entry) && !ended_by(entry.1, read_ident, sector_idx, phase) {
        let i = choose|i: int| 0 <= i < waiting.len() && waiting[i] == entry;
        waiting.lemma_filter_contains(pred, i);
    }
}

} // verus!
