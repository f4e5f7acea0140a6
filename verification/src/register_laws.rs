//! What holds of every step of a register, and of every run of steps.

use crate::domain::{
    zero_sector, ClientCommandView, OperationReturnView, StatusCode, SystemCommandView,
    SystemContentView,
};
use crate::register::{
    all_answers, answers_client, client_outcome, ends_operation, ends_read_phase, imposes, later,
    latest, latest_below, majority, needs_stored, spec_ended_phase, system_outcome,
    timestamp_overflows, EffectView, Phase, RegisterModel, Stamped,
};
use crate::sectors::{lemma_record_round_trip, record_data, record_metadata, sector_record};
use vstd::prelude::*;

verus! {

/// `(ts, wr)` is not earlier than `(other_ts, other_wr)`.
pub open spec fn not_earlier(ts: u64, wr: u8, other_ts: u64, other_wr: u8) -> bool {
    !later(other_ts, other_wr, ts, wr)
}

/// No answer among the ranks below `n` is later than the one chosen among
/// them, which is one of them or the sector of zeros that was never written.
proof fn lemma_latest_below(readlist: Map<u8, Stamped>, n: nat, q: u8)
    requires
        n <= 256,
    ensures
        readlist.dom().contains(q) && q < n ==> not_earlier(
            latest_below(readlist, n).0,
            latest_below(readlist, n).1,
            readlist[q].0,
            readlist[q].1,
        ),
        latest_below(readlist, n) == (0u64, 0u8, zero_sector()) || exists|p: u8|
            p < n && readlist.dom().contains(p) && readlist[p] == latest_below(readlist, n),
    decreases n,
{
    if n > 0 {
        lemma_latest_below(readlist, (n - 1) as nat, q);
        let best = latest_below(readlist, (n - 1) as nat);
        let last = (n - 1) as u8;
        if readlist.dom().contains(last) && later(
            readlist[last].0,
            readlist[last].1,
            best.0,
            best.1,
        ) {
            assert(last < n && readlist.dom().contains(last) && readlist[last] == latest_below(
                readlist,
                n,
            ));
        } else if best != (0u64, 0u8, zero_sector()) {
            let p = choose|p: u8|
                p < n - 1 && readlist.dom().contains(p) && readlist[p] == best;
            assert(p < n && readlist.dom().contains(p) && readlist[p] == latest_below(readlist, n));
        }
    }
}

/// The value chosen at the end of a read phase is the latest: no answer has
/// a later timestamp, nor the same timestamp with a higher rank. It is one
/// of the answers, or the sector of zeros that was never written.
pub proof fn lemma_latest_is_latest(readlist: Map<u8, Stamped>, q: u8)
    ensures
        readlist.dom().contains(q) ==> not_earlier(
            latest(readlist).0,
            latest(readlist).1,
            readlist[q].0,
            readlist[q].1,
        ),
        latest(readlist) == (0u64, 0u8, zero_sector()) || exists|p: u8|
            readlist.dom().contains(p) && readlist[p] == latest(readlist),
{
    lemma_latest_below(readlist, 256, q);
}

/// What a register knows of its sectors never goes back: a sector that was
/// recovered stays so, and its timestamp and write rank never get earlier.
pub open spec fn stamps_advance(before: RegisterModel, after: RegisterModel) -> bool {
    forall|idx: u64| #[trigger]
        before.stamps.dom().contains(idx) ==> after.stamps.dom().contains(idx) && not_earlier(
            after.stamps[idx].0,
            after.stamps[idx].1,
            before.stamps[idx].0,
            before.stamps[idx].1,
        )
}

/// Monotone timestamps: whatever a system command does, the timestamp and
/// write rank of no sector get earlier, and the read identifier stays.
pub proof fn lemma_system_step_advances(
    m: RegisterModel,
    cmd: SystemCommandView,
    stored: Option<Seq<u8>>,
    msg_ident: u128,
)
    ensures
        stamps_advance(m, system_outcome(m, cmd, stored, msg_ident).0),
        system_outcome(m, cmd, stored, msg_ident).0.rid == m.rid,
        system_outcome(m, cmd, stored, msg_ident).0.self_ident == m.self_ident,
        system_outcome(m, cmd, stored, msg_ident).0.processes_count == m.processes_count,
{
    let data = match stored {
        Some(d) => d,
        None => Seq::<u8>::empty(),
    };
    let idx = cmd.header.sector_idx;
    if m.stamps.dom().contains(idx) && !(needs_stored(m, cmd) && stored is None)
        && !timestamp_overflows(m, cmd, data) {
        match cmd.content {
            SystemContentView::Value { timestamp, write_rank, sector_data } => {
                if ends_read_phase(m, cmd.header) && !m.reading {
                    let heard = all_answers(m, cmd, data);
                    lemma_latest_is_latest(heard, m.self_ident);
                    assert(heard.dom().contains(m.self_ident));
                    assert(heard[m.self_ident].0 == m.stamps[idx].0);
                }
            },
            _ => {},
        }
    }
}

/// Monotone read identifiers: a client command that is taken makes the read
/// identifier one larger and leaves what is known of the sectors.
pub proof fn lemma_client_step_advances(m: RegisterModel, cmd: ClientCommandView, msg_ident: u128)
    ensures
        stamps_advance(m, client_outcome(m, cmd, msg_ident).0),
        client_outcome(m, cmd, msg_ident).1 is Ok ==> client_outcome(m, cmd, msg_ident).0.rid
            == m.rid + 1,
        client_outcome(m, cmd, msg_ident).1 is Err ==> client_outcome(m, cmd, msg_ident).0 == m,
{
}

/// Stored before sent: a `ReadProc` goes out only behind the order to store
/// its read identifier, which is that of the register from then on.
pub proof fn lemma_rid_stored_before_broadcast(
    m: RegisterModel,
    cmd: ClientCommandView,
    msg_ident: u128,
)
    requires
        client_outcome(m, cmd, msg_ident).1 is Ok,
    ensures
        ({
            let after = client_outcome(m, cmd, msg_ident).0;
            let effects = client_outcome(m, cmd, msg_ident).1->Ok_0;
            &&& effects.len() == 2
            &&& effects[0] == EffectView::StoreRid { rid: after.rid }
            &&& effects[1] matches EffectView::Broadcast { cmd: sent }
            &&& sent.content is ReadProc
            &&& sent.header.read_ident == after.rid
            &&& sent.header.sector_idx == cmd.header.sector_idx
            &&& sent.header.process_identifier == m.self_ident
        }),
{
}

/// Only a client command sends `ReadProc`: no system command does.
pub proof fn lemma_system_step_sends_no_read_proc(
    m: RegisterModel,
    cmd: SystemCommandView,
    stored: Option<Seq<u8>>,
    msg_ident: u128,
    i: int,
)
    requires
        system_outcome(m, cmd, stored, msg_ident).1 matches Ok(effects) && 0 <= i < effects.len(),
    ensures
        ({
            let effect = system_outcome(m, cmd, stored, msg_ident).1->Ok_0[i];
            &&& effect matches EffectView::Broadcast { cmd: sent } ==> sent.content is WriteProc
            &&& effect matches EffectView::Send { cmd: sent, .. } ==> sent.content is Value
                || sent.content is Ack
            &&& !(effect is StoreRid)
        }),
{
}

/// Stored before announced: where a system command changes what the register
/// knows of a sector, the first thing it asks for is to store that sector
/// with the new timestamp and write rank; the message that tells of it, an
/// `Ack` or a `WriteProc`, comes behind. No other sector changes.
pub proof fn lemma_sector_stored_before_sent(
    m: RegisterModel,
    cmd: SystemCommandView,
    stored: Option<Seq<u8>>,
    msg_ident: u128,
    idx: u64,
)
    requires
        m.stamps.dom().contains(idx),
        system_outcome(m, cmd, stored, msg_ident).0.stamps[idx] != m.stamps[idx],
    ensures
        idx == cmd.header.sector_idx,
        ({
            let after = system_outcome(m, cmd, stored, msg_ident).0;
            &&& system_outcome(m, cmd, stored, msg_ident).1 matches Ok(effects)
            &&& effects.len() == 2
            &&& effects[0] matches EffectView::StoreSector {
                sector_idx,
                data,
                timestamp,
                write_rank,
            }
            &&& sector_idx == idx
            &&& (timestamp, write_rank) == after.stamps[idx]
            &&& effects[1] is Send || effects[1] is Broadcast
        }),
{
}

/// A sector is stored only with the timestamp and write rank that the
/// register then holds for it.
pub proof fn lemma_stored_sector_is_held(
    m: RegisterModel,
    cmd: SystemCommandView,
    stored: Option<Seq<u8>>,
    msg_ident: u128,
    i: int,
)
    requires
        system_outcome(m, cmd, stored, msg_ident).1 matches Ok(effects) && 0 <= i < effects.len()
            && effects[i] is StoreSector,
    ensures
        ({
            let after = system_outcome(m, cmd, stored, msg_ident).0;
            let effects = system_outcome(m, cmd, stored, msg_ident).1->Ok_0;
            &&& i == 0
            &&& effects[0] matches EffectView::StoreSector {
                sector_idx,
                data,
                timestamp,
                write_rank,
            }
            &&& after.stamps.dom().contains(sector_idx)
            &&& after.stamps[sector_idx] == (timestamp, write_rank)
            &&& later(timestamp, write_rank, m.stamps[sector_idx].0, m.stamps[sector_idx].1)
        }),
{
    let data = match stored {
        Some(d) => d,
        None => Seq::<u8>::empty(),
    };
    let idx = cmd.header.sector_idx;
    match cmd.content {
        SystemContentView::Value { timestamp, write_rank, sector_data } => {
            if ends_read_phase(m, cmd.header) && !m.reading {
                let heard = all_answers(m, cmd, data);
                lemma_latest_is_latest(heard, m.self_ident);
                assert(heard.dom().contains(m.self_ident));
                assert(heard[m.self_ident].0 == m.stamps[idx].0);
            }
        },
        _ => {},
    }
}

/// One answer for one command: a system command answers a client only where
/// one waits, at most once, and then none waits any more. The answer carries
/// the request of the client's command.
pub proof fn lemma_completion_once(
    m: RegisterModel,
    cmd: SystemCommandView,
    stored: Option<Seq<u8>>,
    msg_ident: u128,
    i: int,
)
    requires
        system_outcome(m, cmd, stored, msg_ident).1 matches Ok(effects) && 0 <= i < effects.len()
            && effects[i] is Complete,
    ensures
        m.pending,
        !system_outcome(m, cmd, stored, msg_ident).0.pending,
        ({
            let effects = system_outcome(m, cmd, stored, msg_ident).1->Ok_0;
            &&& effects.len() == 1
            &&& effects[0] matches EffectView::Complete { op }
            &&& op.request_identifier == m.request_identifier
            &&& op.status_code == StatusCode::Success
        }),
{
}

/// A system command makes no client wait: only a client command does.
pub proof fn lemma_pending_only_falls(
    m: RegisterModel,
    cmd: SystemCommandView,
    stored: Option<Seq<u8>>,
    msg_ident: u128,
)
    ensures
        system_outcome(m, cmd, stored, msg_ident).0.pending ==> m.pending,
{
}

/// Any two majorities of the same processes share a process: what a majority
/// has acknowledged, every later majority of answers tells of.
pub proof fn lemma_majorities_intersect(a: Set<u8>, b: Set<u8>, all: Set<u8>)
    requires
        all.finite(),
        a.subset_of(all),
        b.subset_of(all),
        2 * a.len() > all.len(),
        2 * b.len() > all.len(),
    ensures
        exists|q: u8| a.contains(q) && b.contains(q),
{
    vstd::set_lib::lemma_len_subset(a, all);
    vstd::set_lib::lemma_len_subset(b, all);
    vstd::set_lib::lemma_set_intersect_union_lens(a, b);
    vstd::set_lib::lemma_len_subset(a.union(b), all);
    assert(a.intersect(b).len() > 0);
    let q = a.intersect(b).choose();
    assert(a.intersect(b).contains(q));
    assert(a.contains(q) && b.contains(q));
}

/// A read sees every write that is complete. Take a write whose value, with
/// timestamp and rank `(ts, wr)`, a majority has acknowledged, and a later
/// read phase in which a majority has answered. No process goes back
/// ([`lemma_system_step_advances`]), so every process of both majorities
/// answers with that value or a later one, and there is such a process
/// ([`lemma_majorities_intersect`]). Then the value that the read phase
/// chooses is that of the write or a later one.
pub proof fn lemma_read_sees_complete_write(
    acknowledged: Set<u8>,
    readlist: Map<u8, Stamped>,
    all: Set<u8>,
    ts: u64,
    wr: u8,
)
    requires
        all.finite(),
        acknowledged.subset_of(all),
        readlist.dom().subset_of(all),
        2 * acknowledged.len() > all.len(),
        2 * readlist.dom().len() > all.len(),
        forall|q: u8|
            acknowledged.contains(q) && readlist.dom().contains(q) ==> not_earlier(
                (#[trigger] readlist[q]).0,
                readlist[q].1,
                ts,
                wr,
            ),
    ensures
        not_earlier(latest(readlist).0, latest(readlist).1, ts, wr),
{
    lemma_majorities_intersect(acknowledged, readlist.dom(), all);
    let q = choose|q: u8| acknowledged.contains(q) && readlist.dom().contains(q);
    lemma_latest_is_latest(readlist, q);
    assert(not_earlier(readlist[q].0, readlist[q].1, ts, wr));
}

/// What was stored is what a restart recovers. Where a step asks to store a
/// sector, the file that is written for it reads back as the timestamp and
/// write rank that the register holds for the sector from then on, and as
/// the data that was stored: a register that is built anew and recovers the
/// sector from that file knows of it what the old one knew.
pub proof fn lemma_restart_recovers_what_was_stored(
    m: RegisterModel,
    cmd: SystemCommandView,
    stored: Option<Seq<u8>>,
    msg_ident: u128,
)
    requires
        system_outcome(m, cmd, stored, msg_ident).1 matches Ok(effects) && effects.len() > 0
            && effects[0] is StoreSector,
    ensures
        ({
            let after = system_outcome(m, cmd, stored, msg_ident).0;
            let effects = system_outcome(m, cmd, stored, msg_ident).1->Ok_0;
            &&& effects[0] matches EffectView::StoreSector {
                sector_idx,
                data,
                timestamp,
                write_rank,
            }
            &&& record_metadata(Some(sector_record(data, timestamp, write_rank)))
                == after.stamps[sector_idx]
            &&& record_data(Some(sector_record(data, timestamp, write_rank))) == data
        }),
{
    lemma_stored_sector_is_held(m, cmd, stored, msg_ident, 0);
    let effects = system_outcome(m, cmd, stored, msg_ident).1->Ok_0;
    match effects[0] {
        EffectView::StoreSector { sector_idx, data, timestamp, write_rank } => {
            lemma_record_round_trip(data, timestamp, write_rank);
        },
        _ => {},
    }
}

/// A read writes back what it returns: the answer of a read is the value
/// that its read phase chose and that its write phase has imposed on a
/// majority before the answer is given.
pub proof fn lemma_read_returns_what_it_imposed(
    m: RegisterModel,
    cmd: SystemCommandView,
    stored: Option<Seq<u8>>,
    msg_ident: u128,
)
    requires
        system_outcome(m, cmd, stored, msg_ident).1 matches Ok(effects) && effects.len() > 0
            && effects[0] is Complete && effects[0]->op.op_return is Read,
    ensures
        cmd.content is Ack,
        m.write_phase,
        m.reading,
        ({
            let effects = system_outcome(m, cmd, stored, msg_ident).1->Ok_0;
            &&& effects[0] matches EffectView::Complete { op }
            &&& op.op_return == (OperationReturnView::Read {
                read_data: Some(m.readval),
            })
        }),
        majority(m.acklist.insert(cmd.header.process_identifier).len(), m.processes_count),
{
}

/// What happens to a register: a command of a client or of a process, with
/// what the worker brings along for it.
pub enum RegisterEvent {
    Client { cmd: ClientCommandView, msg_ident: u128 },
    System { cmd: SystemCommandView, stored: Option<Seq<u8>>, msg_ident: u128 },
}

/// The register after an event.
pub open spec fn after_event(m: RegisterModel, event: RegisterEvent) -> RegisterModel {
    match event {
        RegisterEvent::Client { cmd, msg_ident } => client_outcome(m, cmd, msg_ident).0,
        RegisterEvent::System { cmd, stored, msg_ident } => system_outcome(
            m,
            cmd,
            stored,
            msg_ident,
        ).0,
    }
}

/// How many clients an event answers: one or none.
pub open spec fn answers_of(m: RegisterModel, event: RegisterEvent) -> nat {
    match event {
        RegisterEvent::Client { .. } => 0,
        RegisterEvent::System { cmd, stored, msg_ident } => match system_outcome(
            m,
            cmd,
            stored,
            msg_ident,
        ).1 {
            Ok(effects) => if effects.len() > 0 && effects[0] is Complete {
                1
            } else {
                0
            },
            Err(_) => 0,
        },
    }
}

/// Whether an event is a client command that the register takes.
pub open spec fn is_taken_command(m: RegisterModel, event: RegisterEvent) -> bool {
    event matches RegisterEvent::Client { cmd, msg_ident } && client_outcome(
        m,
        cmd,
        msg_ident,
    ).1 is Ok
}

/// The register after a run of events.
pub open spec fn after_run(m: RegisterModel, events: Seq<RegisterEvent>) -> RegisterModel
    decreases events.len(),
{
    if events.len() == 0 {
        m
    } else {
        after_event(after_run(m, events.drop_last()), events.last())
    }
}

/// How many clients a run of events answers.
pub open spec fn answers_in(m: RegisterModel, events: Seq<RegisterEvent>) -> nat
    decreases events.len(),
{
    if events.len() == 0 {
        0
    } else {
        answers_in(m, events.drop_last()) + answers_of(
            after_run(m, events.drop_last()),
            events.last(),
        )
    }
}

/// How many client commands the register takes in a run of events.
pub open spec fn commands_in(m: RegisterModel, events: Seq<RegisterEvent>) -> nat
    decreases events.len(),
{
    if events.len() == 0 {
        0
    } else {
        commands_in(m, events.drop_last()) + if is_taken_command(
            after_run(m, events.drop_last()),
            events.last(),
        ) {
            1nat
        } else {
            0nat
        }
    }
}

/// Over time nothing goes back: whatever happens to a register, in whatever
/// order, the timestamp and write rank of no sector get earlier, no sector
/// is forgotten, and the read identifier does not get smaller.
pub proof fn lemma_run_advances(m: RegisterModel, events: Seq<RegisterEvent>)
    ensures
        stamps_advance(m, after_run(m, events)),
        after_run(m, events).rid >= m.rid,
        after_run(m, events).self_ident == m.self_ident,
        after_run(m, events).processes_count == m.processes_count,
    decreases events.len(),
{
    if events.len() > 0 {
        lemma_run_advances(m, events.drop_last());
        let before = after_run(m, events.drop_last());
        match events.last() {
            RegisterEvent::Client { cmd, msg_ident } => {
                lemma_client_step_advances(before, cmd, msg_ident);
            },
            RegisterEvent::System { cmd, stored, msg_ident } => {
                lemma_system_step_advances(before, cmd, stored, msg_ident);
            },
        }
    }
}

/// The phase that a step tells the end of is the phase that it ends: the
/// write phase with the `Ack` that ends the operation of a client that
/// waits, the read phase with the `Value` that ends the read phase, and
/// none with any other step. A client command ends no phase.
pub proof fn lemma_step_ends_phase(
    m: RegisterModel,
    cmd: SystemCommandView,
    stored: Option<Seq<u8>>,
    msg_ident: u128,
    client: ClientCommandView,
)
    ensures
        system_outcome(m, cmd, stored, msg_ident).1 matches Ok(effects) ==> spec_ended_phase(
            effects,
        ) == (if cmd.content is Ack && ends_operation(m, cmd.header) && m.pending {
            Some(Phase::Write)
        } else if cmd.content is Value && ends_read_phase(m, cmd.header) {
            Some(Phase::Read)
        } else {
            None::<Phase>
        }),
        client_outcome(m, client, msg_ident).1 matches Ok(effects) ==> spec_ended_phase(effects)
            is None,
{
    if system_outcome(m, cmd, stored, msg_ident).1 is Ok {
        let effects = system_outcome(m, cmd, stored, msg_ident).1->Ok_0;
        if cmd.content is Ack && ends_operation(m, cmd.header) && m.pending {
            assert(answers_client(effects[0]));
        } else if cmd.content is Value && ends_read_phase(m, cmd.header) {
            assert(imposes(effects[effects.len() - 1]));
            assert forall|i: int| 0 <= i < effects.len() implies !answers_client(
                #[trigger] effects[i],
            ) by {}
        } else {
            assert forall|i: int| 0 <= i < effects.len() implies !answers_client(
                #[trigger] effects[i],
            ) && !imposes(effects[i]) by {}
        }
    }
    if client_outcome(m, client, msg_ident).1 is Ok {
        let effects = client_outcome(m, client, msg_ident).1->Ok_0;
        assert forall|i: int| 0 <= i < effects.len() implies !answers_client(
            #[trigger] effects[i],
        ) && !imposes(effects[i]) by {}
    }
}

/// A client that waits keeps its place: a client command that comes while
/// a client waits is refused and changes nothing, and a system command
/// either answers the client that waits or leaves it waiting, with its
/// request.
pub proof fn lemma_waiting_client_keeps_its_place(m: RegisterModel, event: RegisterEvent)
    requires
        m.pending,
    ensures
        event is Client ==> after_event(m, event) == m && !is_taken_command(m, event),
        answers_of(m, event) == 0 ==> after_event(m, event).pending && after_event(
            m,
            event,
        ).request_identifier == m.request_identifier,
        answers_of(m, event) == 1 ==> !after_event(m, event).pending,
{
    match event {
        RegisterEvent::Client { cmd, msg_ident } => {},
        RegisterEvent::System { cmd, stored, msg_ident } => {
            if answers_of(m, event) == 1 {
                lemma_completion_once(m, cmd, stored, msg_ident, 0);
            }
        },
    }
}

/// One answer for one command, over time: whatever happens to a register
/// that starts with no client waiting, every client command that it has
/// taken has got its answer, but for the last one where a client waits.
pub proof fn lemma_one_answer_for_one_command(m: RegisterModel, events: Seq<RegisterEvent>)
    requires
        !m.pending,
    ensures
        commands_in(m, events) == answers_in(m, events) + (if after_run(m, events).pending {
            1nat
        } else {
            0nat
        }),
    decreases events.len(),
{
    if events.len() > 0 {
        lemma_one_answer_for_one_command(m, events.drop_last());
        let before = after_run(m, events.drop_last());
        match events.last() {
            RegisterEvent::Client { cmd, msg_ident } => {},
            RegisterEvent::System { cmd, stored, msg_ident } => {
                lemma_pending_only_falls(before, cmd, stored, msg_ident);
                if before.pending {
                    lemma_waiting_client_keeps_its_place(before, events.last());
                }
                if answers_of(before, events.last()) == 1 {
                    lemma_completion_once(before, cmd, stored, msg_ident, 0);
                }
            },
        }
    }
}

/// The answer is for the client that waits: whatever happens to a register
/// at which a client waits, as long as no client is answered that client
/// waits, with its request, and the first answer carries that request.
pub proof fn lemma_answer_is_for_the_waiting_client(
    m: RegisterModel,
    events: Seq<RegisterEvent>,
    cmd: SystemCommandView,
    stored: Option<Seq<u8>>,
    msg_ident: u128,
)
    requires
        m.pending,
        answers_in(m, events) == 0,
    ensures
        after_run(m, events).pending,
        after_run(m, events).request_identifier == m.request_identifier,
        ({
            let outcome = system_outcome(after_run(m, events), cmd, stored, msg_ident).1;
            outcome is Ok && outcome->Ok_0.len() > 0 && outcome->Ok_0[0] is Complete
                ==> outcome->Ok_0[0]->Complete_op.request_identifier == m.request_identifier
        }),
    decreases events.len(),
{
    if events.len() > 0 {
        lemma_answer_is_for_the_waiting_client(m, events.drop_last(), cmd, stored, msg_ident);
        lemma_waiting_client_keeps_its_place(after_run(m, events.drop_last()), events.last());
    }
    let now = after_run(m, events);
    let outcome = system_outcome(now, cmd, stored, msg_ident).1;
    if outcome is Ok && outcome->Ok_0.len() > 0 && outcome->Ok_0[0] is Complete {
        lemma_completion_once(now, cmd, stored, msg_ident, 0);
    }
}

/// Every sector that the register holds in memory is one of `values`.
pub open spec fn holds_only(m: RegisterModel, values: Set<Seq<u8>>) -> bool {
    &&& values.contains(m.readval)
    &&& values.contains(m.writeval)
    &&& forall|q: u8| m.readlist.dom().contains(q) ==> values.contains((#[trigger] m.readlist[q]).2)
}

/// The sector that a message carries, if it carries one.
pub open spec fn carried(cmd: SystemCommandView) -> Option<Seq<u8>> {
    match cmd.content {
        SystemContentView::Value { sector_data, .. } => Some(sector_data),
        SystemContentView::WriteProc { data_to_write, .. } => Some(data_to_write),
        _ => None,
    }
}

/// The sector that an effect hands on, if it hands one on: to the disk, to
/// a process, or to the client.
pub open spec fn handed_on(effect: EffectView) -> Option<Seq<u8>> {
    match effect {
        EffectView::StoreSector { data, .. } => Some(data),
        EffectView::Broadcast { cmd } => carried(cmd),
        EffectView::Send { cmd, .. } => carried(cmd),
        EffectView::Complete { op } => match op.op_return {
            OperationReturnView::Read { read_data } => read_data,
            OperationReturnView::Write => None,
        },
        EffectView::StoreRid { .. } => None,
    }
}

/// No value is invented. Take any set of sectors that holds the sector of
/// zeros, what the register holds in memory, what stands on disk for the
/// step, and what the message carries. Then whatever the step stores, sends
/// or answers is of that set, and so is what the register holds afterwards:
/// a read returns the sector of zeros or what some client has written.
pub proof fn lemma_no_value_invented(
    m: RegisterModel,
    cmd: SystemCommandView,
    stored: Option<Seq<u8>>,
    msg_ident: u128,
    values: Set<Seq<u8>>,
    i: int,
)
    requires
        values.contains(zero_sector()),
        holds_only(m, values),
        stored matches Some(d) ==> values.contains(d),
        carried(cmd) matches Some(d) ==> values.contains(d),
    ensures
        holds_only(system_outcome(m, cmd, stored, msg_ident).0, values),
        system_outcome(m, cmd, stored, msg_ident).1 matches Ok(effects) ==> (0 <= i < effects.len()
            && handed_on(effects[i]) is Some ==> values.contains(handed_on(effects[i])->Some_0)),
{
    let data = match stored {
        Some(d) => d,
        None => Seq::<u8>::empty(),
    };
    let idx = cmd.header.sector_idx;
    if m.stamps.dom().contains(idx) && !(needs_stored(m, cmd) && stored is None) {
        match cmd.content {
            SystemContentView::Value { timestamp, write_rank, sector_data } => {
                if ends_read_phase(m, cmd.header) {
                    let heard = all_answers(m, cmd, data);
                    lemma_latest_is_latest(heard, m.self_ident);
                    if latest(heard) != (0u64, 0u8, zero_sector()) {
                        let p = choose|p: u8|
                            heard.dom().contains(p) && heard[p] == latest(heard);
                        if p != m.self_ident && p != cmd.header.process_identifier {
                            assert(m.readlist.dom().contains(p));
                            assert(values.contains(m.readlist[p].2));
                        }
                    }
                    assert forall|q: u8| heard.dom().contains(q) implies values.contains(
                        (#[trigger] heard[q]).2,
                    ) by {
                        if q != m.self_ident && q != cmd.header.process_identifier {
                            assert(m.readlist.dom().contains(q));
                            assert(values.contains(m.readlist[q].2));
                        }
                    }
                }
            },
            _ => {},
        }
    }
}

/// A client command invents no value either: what the register holds
/// afterwards is what it held and, for a write, the sector of the command.
pub proof fn lemma_client_command_brings_its_value(
    m: RegisterModel,
    cmd: ClientCommandView,
    msg_ident: u128,
    values: Set<Seq<u8>>,
)
    requires
        holds_only(m, values),
        cmd.content matches crate::domain::ClientContentView::Write { data } ==> values.contains(
            data,
        ),
    ensures
        holds_only(client_outcome(m, cmd, msg_ident).0, values),
{
}

} // verus!
