//! A command is completed once a majority has answered and acknowledged,
//! whatever else happens meanwhile.
//!
//! A process that gets the question of an operation puts its answer on the
//! network, and one that gets the value that is imposed puts its
//! acknowledgement there. Once the answers of more than half of the
//! processes have been delivered to the process that serves the client,
//! the read phase is over; once their acknowledgements have been delivered,
//! the client has its answer. Between those deliveries anything may happen,
//! as long as that process does not restart and no timestamp is the largest
//! that there is. So operations at different processes, on one sector or on
//! several, do not hinder each other: each is completed by its majority.

use crate::cluster::{
    after, after_all, after_client, after_deliver, cluster_ok, emitted, is_rank, knows,
    lemma_client_effects, lemma_client_keeps_ok, lemma_cluster_stays_ok, lemma_deliver_effects,
    lemma_deliver_keeps_ok, lemma_restart_keeps_ok, message_ok, register_ok, shape_ok, Cluster,
    ClusterEvent, Op,
};
use crate::domain::{
    zero_sector, ClientCommandView, SystemCommandHeader, SystemCommandView, SystemContentView,
};
use crate::register::{
    all_answers, client_outcome, ends_read_phase, latest, majority, message_from, system_outcome,
    timestamp_overflows,
};
use crate::register_laws::lemma_latest_is_latest;
use vstd::prelude::*;

verus! {

/// The question that the process `p` sends to every process for its
/// operation `rid`.
pub open spec fn question(p: u8, rid: u64, sector: u64, msg_ident: u128) -> SystemCommandView {
    SystemCommandView {
        header: SystemCommandHeader {
            process_identifier: p,
            msg_ident,
            read_ident: rid,
            sector_idx: sector,
        },
        content: SystemContentView::ReadProc,
    }
}

/// The value that the process `p` imposes in the write phase of the
/// operation that it serves, as the message that it sends to every process
/// with the identifier `msg_ident`.
pub open spec fn imposition(w: Cluster, p: u8, msg_ident: u128) -> SystemCommandView {
    let m = w.registers[p];
    let c = w.chosen[(p, m.rid)];
    message_from(
        m,
        msg_ident,
        m.rid,
        w.serving[(p, m.rid)],
        SystemContentView::WriteProc {
            timestamp: c.0,
            write_rank: c.1,
            data_to_write: if m.reading {
                m.readval
            } else {
                m.writeval
            },
        },
    )
}

/// The answer of the process `q` to a question, as things stand, under the
/// identifier `msg_ident`.
pub open spec fn answer_of(w: Cluster, q: u8, ask: SystemCommandView, msg_ident: u128)
    -> SystemCommandView {
    message_from(
        w.registers[q],
        msg_ident,
        ask.header.read_ident,
        ask.header.sector_idx,
        SystemContentView::Value {
            timestamp: w.disks[(q, ask.header.sector_idx)].stamp.0,
            write_rank: w.disks[(q, ask.header.sector_idx)].stamp.1,
            sector_data: w.disks[(q, ask.header.sector_idx)].data,
        },
    )
}

/// The acknowledgement of the process `q` for a value that is imposed,
/// under the identifier `msg_ident`.
pub open spec fn ack_for(w: Cluster, q: u8, imposed: SystemCommandView, msg_ident: u128)
    -> SystemCommandView {
    message_from(
        w.registers[q],
        msg_ident,
        imposed.header.read_ident,
        imposed.header.sector_idx,
        SystemContentView::Ack,
    )
}

/// A question is answered: a process that gets the question of an
/// operation puts its answer for the process that asked on the network.
/// Nothing else changes.
pub proof fn lemma_question_is_answered(
    w: Cluster,
    ask: SystemCommandView,
    q: u8,
    msg_ident: u128,
)
    requires
        cluster_ok(w),
        is_rank(w.n, q),
        ask.content is ReadProc,
        w.sent.contains((q as usize, ask)),
    ensures
        ({
            let v = after_deliver(w, q, ask, msg_ident);
            let answer = answer_of(w, q, ask, msg_ident);
            &&& cluster_ok(v)
            &&& v.registers == w.registers
            &&& v.disks == w.disks
            &&& v.chosen == w.chosen
            &&& v.complete == w.complete
            &&& v.n == w.n
            &&& forall|target: usize, msg: SystemCommandView| #[trigger]
                w.sent.contains((target, msg)) ==> v.sent.contains((target, msg))
            &&& v.sent.contains((ask.header.process_identifier as usize, answer))
            &&& answer.content is Value
            &&& answer.header.process_identifier == q
            &&& answer.header.read_ident == ask.header.read_ident
        }),
{
    let v = after_deliver(w, q, ask, msg_ident);
    lemma_deliver_keeps_ok(w, q, ask, msg_ident);
    assert(message_ok(w, q as usize, ask));
    assert(shape_ok(w));
    assert(knows(w, q, ask.header.sector_idx));
    lemma_deliver_effects(w, q, ask, msg_ident);
    assert(v.registers =~= w.registers) by {
        assert(v.registers[q].stamps =~= w.registers[q].stamps);
    }
    assert(v.disks =~= w.disks);
    assert(emitted(
        w,
        q,
        ask,
        msg_ident,
        ask.header.process_identifier as usize,
        answer_of(w, q, ask, msg_ident),
    ));
}

/// A value that is imposed is acknowledged: a process that gets it puts its
/// acknowledgement for the process that imposes it on the network.
pub proof fn lemma_imposition_is_acknowledged(
    w: Cluster,
    imposed: SystemCommandView,
    q: u8,
    msg_ident: u128,
)
    requires
        cluster_ok(w),
        is_rank(w.n, q),
        imposed.content is WriteProc,
        w.sent.contains((q as usize, imposed)),
    ensures
        ({
            let v = after_deliver(w, q, imposed, msg_ident);
            let ack = ack_for(w, q, imposed, msg_ident);
            &&& cluster_ok(v)
            &&& v.sent.contains((imposed.header.process_identifier as usize, ack))
            &&& ack.content is Ack
            &&& ack.header.process_identifier == q
            &&& ack.header.read_ident == imposed.header.read_ident
        }),
{
    lemma_deliver_keeps_ok(w, q, imposed, msg_ident);
    assert(message_ok(w, q as usize, imposed));
    assert(shape_ok(w));
    assert(knows(w, q, imposed.header.sector_idx));
    lemma_deliver_effects(w, q, imposed, msg_ident);
    assert(emitted(
        w,
        q,
        imposed,
        msg_ident,
        imposed.header.process_identifier as usize,
        ack_for(w, q, imposed, msg_ident),
    ));
}

/// The disks have room: the timestamp of no process for the sector is the
/// largest that there is.
pub open spec fn room_on_disks(w: Cluster, sector: u64) -> bool {
    forall|q: u8| #[trigger] is_rank(w.n, q) ==> w.disks[(q, sector)].stamp.0 < u64::MAX
}

/// The answers on the network leave room: none for the sector carries the
/// largest timestamp that there is.
pub open spec fn room_in_flight(w: Cluster, sector: u64) -> bool {
    forall|target: usize, msg: SystemCommandView| #[trigger]
        w.sent.contains((target, msg)) ==> (msg.content matches SystemContentView::Value {
            timestamp,
            ..
        } ==> msg.header.sector_idx == sector ==> timestamp < u64::MAX)
}

/// The disks have room for the sector before every event of a run.
pub open spec fn kept_room(w: Cluster, events: Seq<ClusterEvent>, sector: u64) -> bool
    decreases events.len(),
{
    if events.len() == 0 {
        true
    } else {
        kept_room(w, events.drop_last(), sector) && room_on_disks(
            after_all(w, events.drop_last()),
            sector,
        )
    }
}

/// The event is no restart of the process `p`.
pub open spec fn spares(event: ClusterEvent, p: u8) -> bool {
    match event {
        ClusterEvent::Restart { at } => at != p,
        _ => true,
    }
}

/// No event of the run is a restart of the process `p`.
pub open spec fn all_spare(events: Seq<ClusterEvent>, p: u8) -> bool {
    forall|i: int| 0 <= i < events.len() ==> spares(#[trigger] events[i], p)
}

/// Where the operation `op` of the process `op.0` stands. The client has
/// its answer; or the operation is in its read phase, with the question on
/// its way to every process and the answers of the processes in `noted`
/// noted, fewer than a majority; or it is in its write phase, with the
/// value that it imposes on its way to every process and the
/// acknowledgements of the processes in `acked` noted, fewer than a
/// majority. `reads` tells whether the operation is a read.
pub open spec fn on_the_way(
    w: Cluster,
    op: Op,
    ask: SystemCommandView,
    noted: Set<u8>,
    acked: Set<u8>,
    reads: bool,
) -> bool {
    let p = op.0;
    let m = w.registers[p];
    &&& cluster_ok(w)
    &&& room_in_flight(w, ask.header.sector_idx)
    &&& is_rank(w.n, p)
    &&& ask == question(p, op.1, ask.header.sector_idx, ask.header.msg_ident)
    &&& w.floor.dom().contains(op)
    &&& w.serving[op] == ask.header.sector_idx
    &&& if w.finished.contains(op) {
        reads ==> w.answered.dom().contains(op)
    } else {
        &&& m.rid == op.1
        &&& m.pending
        &&& m.reading == reads
        &&& if m.write_phase {
            &&& exists|msg_ident: u128| imposing(w, p, msg_ident)
            &&& acked.subset_of(m.acklist)
            &&& !majority(acked.len(), w.n)
        } else {
            &&& forall|q: u8| #[trigger] is_rank(w.n, q) ==> w.sent.contains((q as usize, ask))
            &&& noted.subset_of(m.readlist.dom())
            &&& !majority(noted.len(), w.n)
            &&& acked.len() == 0
            &&& acked.finite()
            &&& forall|q: u8|
                m.readlist.dom().contains(q) ==> (#[trigger] m.readlist[q]).0 < u64::MAX
        }
    }
}

/// The value that `p` imposes is on its way to every process, under the
/// identifier `msg_ident`.
pub open spec fn imposing(w: Cluster, p: u8, msg_ident: u128) -> bool {
    forall|q: u8| #[trigger]
        is_rank(w.n, q) ==> w.sent.contains((q as usize, imposition(w, p, msg_ident)))
}

/// A run of events, and then one more.
pub proof fn lemma_after_push(w: Cluster, events: Seq<ClusterEvent>, event: ClusterEvent)
    ensures
        after_all(w, events.push(event)) == after(after_all(w, events), event),
{
    assert(events.push(event).drop_last() =~= events);
}

/// A run of events, and then another run.
pub proof fn lemma_after_runs(w: Cluster, first: Seq<ClusterEvent>, second: Seq<ClusterEvent>)
    ensures
        after_all(w, first + second) == after_all(after_all(w, first), second),
    decreases second.len(),
{
    if second.len() == 0 {
        assert(first + second =~= first);
    } else {
        lemma_after_runs(w, first, second.drop_last());
        assert((first + second).drop_last() =~= first + second.drop_last());
    }
}

/// Room that is kept over a run is kept over its first part and, from
/// there, over the rest.
pub proof fn lemma_kept_room_splits(
    w: Cluster,
    first: Seq<ClusterEvent>,
    second: Seq<ClusterEvent>,
    sector: u64,
)
    requires
        kept_room(w, first + second, sector),
    ensures
        kept_room(w, first, sector),
        kept_room(after_all(w, first), second, sector),
    decreases second.len(),
{
    if second.len() == 0 {
        assert(first + second =~= first);
    } else {
        assert((first + second).drop_last() =~= first + second.drop_last());
        lemma_kept_room_splits(w, first, second.drop_last(), sector);
        lemma_after_runs(w, first, second.drop_last());
    }
}

/// Whatever happens, what is on the network stays there, and what is
/// finished stays finished.
pub proof fn lemma_nothing_is_taken_back(w: Cluster, event: ClusterEvent)
    requires
        cluster_ok(w),
    ensures
        after(w, event).n == w.n,
        forall|op: Op| #[trigger]
            w.floor.dom().contains(op) ==> after(w, event).floor.dom().contains(op) && after(
                w,
                event,
            ).serving[op] == w.serving[op],
        forall|target: usize, msg: SystemCommandView| #[trigger]
            w.sent.contains((target, msg)) ==> after(w, event).sent.contains((target, msg)),
        forall|op: Op| #[trigger]
            w.finished.contains(op) ==> after(w, event).finished.contains(op),
        forall|op: Op| #[trigger]
            w.answered.dom().contains(op) ==> after(w, event).answered.dom().contains(op),
{
    match event {
        ClusterEvent::Client { at, cmd, msg_ident } => {
            if client_taken(w, at, cmd, msg_ident) {
                lemma_client_effects(w, at, cmd, msg_ident);
                assert(shape_ok(w));
                assert forall|op: Op| #[trigger] w.floor.dom().contains(op) implies after(
                    w,
                    event,
                ).serving[op] == w.serving[op] by {}
            }
        },
        ClusterEvent::Deliver { at, msg, msg_ident } => {
            if is_rank(w.n, at) && w.sent.contains((at as usize, msg)) {
                assert(message_ok(w, at as usize, msg));
                assert(shape_ok(w));
                assert(knows(w, at, msg.header.sector_idx));
                if system_outcome(
                    w.registers[at],
                    msg,
                    Some(w.disks[(at, msg.header.sector_idx)].data),
                    msg_ident,
                ).1 is Ok {
                    lemma_deliver_effects(w, at, msg, msg_ident);
                }
            }
        },
        ClusterEvent::Restart { .. } => {},
    }
}

/// The client's command is taken by the process `at`.
pub open spec fn client_taken(w: Cluster, at: u8, cmd: ClientCommandView, msg_ident: u128)
    -> bool {
    is_rank(w.n, at) && !w.registers[at].pending && client_outcome(
        w.registers[at],
        cmd,
        msg_ident,
    ).1 is Ok
}

/// The operation is past its read phase.
pub open spec fn past_reading(w: Cluster, op: Op) -> bool {
    w.finished.contains(op) || w.registers[op.0].write_phase
}

/// What a delivery at the process that serves the operation does to where
/// the operation stands: the answer or the acknowledgement of the process
/// `from` is noted, if the message is one for the operation.
proof fn lemma_delivery_is_noted(
    w: Cluster,
    op: Op,
    ask: SystemCommandView,
    noted: Set<u8>,
    acked: Set<u8>,
    reads: bool,
    msg: SystemCommandView,
    msg_ident: u128,
)
    requires
        on_the_way(w, op, ask, noted, acked, reads),
        room_on_disks(w, ask.header.sector_idx),
        noted.finite(),
        acked.finite(),
    ensures
        ({
            let v = after_deliver(w, op.0, msg, msg_ident);
            let from = msg.header.process_identifier;
            let counts = w.sent.contains((op.0 as usize, msg)) && msg.header.read_ident == op.1;
            &&& on_the_way(v, op, ask, noted, acked, reads)
            &&& past_reading(w, op) ==> past_reading(v, op)
            &&& counts && msg.content is Value ==> on_the_way(
                v,
                op,
                ask,
                noted.insert(from),
                acked,
                reads,
            )
            &&& counts && msg.content is Ack && past_reading(w, op) ==> on_the_way(
                v,
                op,
                ask,
                noted,
                acked.insert(from),
                reads,
            )
        }),
{
    let p = op.0;
    let m = w.registers[p];
    let v = after_deliver(w, p, msg, msg_ident);
    let from = msg.header.process_identifier;
    lemma_deliver_keeps_ok(w, p, msg, msg_ident);
    lemma_nothing_is_taken_back(w, ClusterEvent::Deliver { at: p, msg, msg_ident });
    assert(shape_ok(w));
    assert(register_ok(w, p));
    if w.sent.contains((p as usize, msg)) {
        assert(message_ok(w, p as usize, msg));
        let disk = w.disks[(p, msg.header.sector_idx)];
        assert(knows(w, p, msg.header.sector_idx));
        let outcome = system_outcome(m, msg, Some(disk.data), msg_ident);
        let heard = all_answers(m, msg, disk.data);
        if !w.finished.contains(op) && !m.write_phase && msg.content is Value && ends_read_phase(
            m,
            msg.header,
        ) {
            lemma_latest_is_latest(heard, p);
            assert(!timestamp_overflows(m, msg, disk.data)) by {
                if latest(heard) != (0u64, 0u8, zero_sector()) {
                    let x = choose|x: u8| heard.dom().contains(x) && heard[x] == latest(heard);
                    if x != p && x != from {
                        assert(m.readlist.dom().contains(x));
                    }
                }
            }
        }
        if outcome.1 is Ok {
            lemma_deliver_effects(w, p, msg, msg_ident);
        }
        assert(room_in_flight(v, ask.header.sector_idx)) by {
            assert forall|target: usize, out: SystemCommandView| #[trigger]
                v.sent.contains((target, out)) implies (out.content matches SystemContentView::Value {
                timestamp,
                ..
            } ==> out.header.sector_idx == ask.header.sector_idx ==> timestamp < u64::MAX) by {
                if !w.sent.contains((target, out)) {
                    assert(outcome.1 is Ok);
                    assert(emitted(w, p, msg, msg_ident, target, out));
                }
            }
        }
        if !w.finished.contains(op) {
            let n = v.registers[p];
            if m.write_phase {
                let i = choose|i: u128| imposing(w, p, i);
                if !v.finished.contains(op) {
                    assert(n.rid == m.rid && n.reading == m.reading && n.readval == m.readval
                        && n.writeval == m.writeval && n.self_ident == m.self_ident);
                    assert(imposition(v, p, i) == imposition(w, p, i));
                    assert(imposing(v, p, i)) by {
                        assert forall|t: u8| #[trigger] is_rank(v.n, t) implies v.sent.contains(
                            (t as usize, imposition(v, p, i)),
                        ) by {
                            assert(is_rank(w.n, t));
                        }
                    }
                    if msg.content is Ack && msg.header.read_ident == op.1 {
                        let grown = acked.insert(from);
                        assert(n.acklist =~= m.acklist.insert(from));
                        assert(grown.subset_of(n.acklist));
                        vstd::set_lib::lemma_len_subset(grown, n.acklist);
                    }
                }
            } else {
                assert forall|t: u8| #[trigger] is_rank(v.n, t) implies v.sent.contains(
                    (t as usize, ask),
                ) by {
                    assert(is_rank(w.n, t));
                }
                if msg.content is Value && msg.header.read_ident == op.1 {
                    if ends_read_phase(m, msg.header) {
                        assert(imposing(v, p, msg_ident)) by {
                            assert forall|t: u8| #[trigger] is_rank(v.n, t) implies v.sent.contains(
                                (t as usize, imposition(v, p, msg_ident)),
                            ) by {
                                assert(emitted(
                                    w,
                                    p,
                                    msg,
                                    msg_ident,
                                    t as usize,
                                    imposition(v, p, msg_ident),
                                ));
                            }
                        }
                        assert(acked =~= Set::<u8>::empty());
                    } else {
                        let grown = noted.insert(from);
                        assert(n.readlist.dom() =~= m.readlist.dom().insert(from));
                        assert(grown.subset_of(n.readlist.dom()));
                        vstd::set_lib::lemma_len_subset(grown, n.readlist.dom());
                        assert forall|x: u8| n.readlist.dom().contains(x) implies (
                        #[trigger] n.readlist[x]).0 < u64::MAX by {
                            if x != from {
                                assert(m.readlist.dom().contains(x));
                            }
                        }
                    }
                } else if msg.content is Value {
                    assert(n == m);
                }
            }
        }
    }
}

/// Whatever happens, short of a restart of the process that serves it, an
/// operation stays where it stands or gets on: what is noted stays noted,
/// and an operation that is past its read phase stays so.
pub proof fn lemma_stays_on_the_way(
    w: Cluster,
    op: Op,
    ask: SystemCommandView,
    noted: Set<u8>,
    acked: Set<u8>,
    reads: bool,
    event: ClusterEvent,
)
    requires
        on_the_way(w, op, ask, noted, acked, reads),
        room_on_disks(w, ask.header.sector_idx),
        spares(event, op.0),
        noted.finite(),
        acked.finite(),
    ensures
        on_the_way(after(w, event), op, ask, noted, acked, reads),
        past_reading(w, op) ==> past_reading(after(w, event), op),
{
    let p = op.0;
    let m = w.registers[p];
    let v = after(w, event);
    lemma_nothing_is_taken_back(w, event);
    assert(shape_ok(w));
    match event {
        ClusterEvent::Client { at, cmd, msg_ident } => {
            lemma_client_keeps_ok(w, at, cmd, msg_ident);
            if client_taken(w, at, cmd, msg_ident) {
                lemma_client_effects(w, at, cmd, msg_ident);
                if !w.finished.contains(op) {
                    assert(at != p);
                    assert(v.registers[p] == m);
                    if m.write_phase {
                        let i = choose|i: u128| imposing(w, p, i);
                        assert(imposition(v, p, i) == imposition(w, p, i));
                        assert(imposing(v, p, i)) by {
                            assert forall|t: u8| #[trigger] is_rank(v.n, t) implies v.sent.contains(
                                (t as usize, imposition(v, p, i)),
                            ) by {
                                assert(is_rank(w.n, t));
                            }
                        }
                    } else {
                        assert forall|t: u8| #[trigger] is_rank(v.n, t) implies v.sent.contains(
                            (t as usize, ask),
                        ) by {
                            assert(is_rank(w.n, t));
                        }
                    }
                }
            }
        },
        ClusterEvent::Restart { at } => {
            lemma_restart_keeps_ok(w, at);
            if is_rank(w.n, at) && !w.finished.contains(op) {
                assert(v.registers[p] == m);
                if m.write_phase {
                    let i = choose|i: u128| imposing(w, p, i);
                    assert(imposition(v, p, i) == imposition(w, p, i));
                    assert(imposing(v, p, i));
                }
            }
        },
        ClusterEvent::Deliver { at, msg, msg_ident } => {
            if at == p {
                lemma_delivery_is_noted(w, op, ask, noted, acked, reads, msg, msg_ident);
            } else {
                lemma_deliver_keeps_ok(w, at, msg, msg_ident);
                if is_rank(w.n, at) && w.sent.contains((at as usize, msg)) {
                    assert(message_ok(w, at as usize, msg));
                    assert(knows(w, at, msg.header.sector_idx));
                    let outcome = system_outcome(
                        w.registers[at],
                        msg,
                        Some(w.disks[(at, msg.header.sector_idx)].data),
                        msg_ident,
                    );
                    if outcome.1 is Ok {
                        lemma_deliver_effects(w, at, msg, msg_ident);
                    }
                    assert(room_in_flight(v, ask.header.sector_idx)) by {
                        assert forall|target: usize, out: SystemCommandView| #[trigger]
                            v.sent.contains((target, out)) implies (
                        out.content matches SystemContentView::Value { timestamp, .. }
                            ==> out.header.sector_idx == ask.header.sector_idx ==> timestamp
                            < u64::MAX) by {
                            if !w.sent.contains((target, out)) {
                                assert(outcome.1 is Ok);
                                assert(emitted(w, at, msg, msg_ident, target, out));
                            }
                        }
                    }
                    if !w.finished.contains(op) {
                        assert(v.registers[p] == m);
                        assert(!v.finished.contains(op)) by {
                            assert(register_ok(w, at));
                        }
                        if m.write_phase {
                            let i = choose|i: u128| imposing(w, p, i);
                            assert(w.chosen.dom().contains((p, m.rid))) by {
                                assert(register_ok(w, p));
                            }
                            assert(v.chosen[(p, m.rid)] == w.chosen[(p, m.rid)]);
                            assert(imposition(v, p, i) == imposition(w, p, i));
                            assert(imposing(v, p, i)) by {
                                assert forall|t: u8| #[trigger] is_rank(
                                    v.n,
                                    t,
                                ) implies v.sent.contains((t as usize, imposition(v, p, i))) by {
                                    assert(is_rank(w.n, t));
                                }
                            }
                        } else {
                            assert forall|t: u8| #[trigger] is_rank(v.n, t) implies v.sent.contains(
                                (t as usize, ask),
                            ) by {
                                assert(is_rank(w.n, t));
                            }
                        }
                    }
                }
            }
        },
    }
}

/// A run in which the process that serves an operation does not restart
/// leaves the operation where it stands or gets it on.
pub proof fn lemma_meanwhile(
    w: Cluster,
    op: Op,
    ask: SystemCommandView,
    noted: Set<u8>,
    acked: Set<u8>,
    reads: bool,
    events: Seq<ClusterEvent>,
)
    requires
        on_the_way(w, op, ask, noted, acked, reads),
        all_spare(events, op.0),
        kept_room(w, events, ask.header.sector_idx),
        noted.finite(),
        acked.finite(),
    ensures
        on_the_way(after_all(w, events), op, ask, noted, acked, reads),
        past_reading(w, op) ==> past_reading(after_all(w, events), op),
        forall|target: usize, msg: SystemCommandView| #[trigger]
            w.sent.contains((target, msg)) ==> after_all(w, events).sent.contains((target, msg)),
    decreases events.len(),
{
    if events.len() > 0 {
        let rest = events.drop_last();
        assert(all_spare(rest, op.0)) by {
            assert forall|i: int| 0 <= i < rest.len() implies spares(#[trigger] rest[i], op.0) by {
                assert(rest[i] == events[i]);
            }
        }
        lemma_meanwhile(w, op, ask, noted, acked, reads, rest);
        let u = after_all(w, rest);
        assert(spares(events[events.len() - 1], op.0));
        lemma_stays_on_the_way(u, op, ask, noted, acked, reads, events.last());
        lemma_nothing_is_taken_back(u, events.last());
    }
}

/// A message that arrives at the process that serves an operation, behind
/// whatever has happened meanwhile.
pub struct Arrival {
    /// What happens before the message arrives.
    pub meanwhile: Seq<ClusterEvent>,
    /// The message.
    pub msg: SystemCommandView,
    /// The identifier for the message that the delivery makes the process
    /// send.
    pub msg_ident: u128,
}

/// The events of arrivals at the process `p`, one after the other.
pub open spec fn run_of(p: u8, arrivals: Seq<Arrival>) -> Seq<ClusterEvent>
    decreases arrivals.len(),
{
    if arrivals.len() == 0 {
        Seq::empty()
    } else {
        (run_of(p, arrivals.drop_last()) + arrivals.last().meanwhile).push(
            ClusterEvent::Deliver {
                at: p,
                msg: arrivals.last().msg,
                msg_ident: arrivals.last().msg_ident,
            },
        )
    }
}

/// Each arrival brings a message for the operation, an acknowledgement or
/// an answer as `acks` tells, that is on the network when it arrives, and
/// meanwhile the process that serves the operation does not restart.
pub open spec fn arrive(w: Cluster, op: Op, arrivals: Seq<Arrival>, acks: bool) -> bool
    decreases arrivals.len(),
{
    if arrivals.len() == 0 {
        true
    } else {
        let a = arrivals.last();
        let u = after_all(w, run_of(op.0, arrivals.drop_last()) + a.meanwhile);
        &&& arrive(w, op, arrivals.drop_last(), acks)
        &&& all_spare(a.meanwhile, op.0)
        &&& u.sent.contains((op.0 as usize, a.msg))
        &&& a.msg.header.read_ident == op.1
        &&& if acks {
            a.msg.content is Ack
        } else {
            a.msg.content is Value
        }
    }
}

/// The processes whose messages arrive.
pub open spec fn senders(arrivals: Seq<Arrival>) -> Seq<u8> {
    Seq::new(arrivals.len(), |i: int| arrivals[i].msg.header.process_identifier)
}

/// The processes of a sequence and one more.
proof fn lemma_senders_grow(arrivals: Seq<Arrival>)
    requires
        arrivals.len() > 0,
    ensures
        senders(arrivals).to_set() == senders(arrivals.drop_last()).to_set().insert(
            arrivals.last().msg.header.process_identifier,
        ),
        senders(arrivals.drop_last()).to_set().finite(),
{
    let all = senders(arrivals);
    let rest = senders(arrivals.drop_last());
    let q = arrivals.last().msg.header.process_identifier;
    vstd::seq_lib::seq_to_set_is_finite(rest);
    assert(all =~= rest.push(q));
    rest.lemma_push_to_set_commute(q);
    assert(all.to_set() =~= rest.to_set().insert(q));
}

/// Arrivals of answers, one after the other: the answers of the processes
/// that sent them are noted, or the read phase is over.
proof fn lemma_answers_are_noted(
    w: Cluster,
    op: Op,
    ask: SystemCommandView,
    reads: bool,
    arrivals: Seq<Arrival>,
)
    requires
        on_the_way(w, op, ask, Set::empty(), Set::empty(), reads),
        arrive(w, op, arrivals, false),
        kept_room(w, run_of(op.0, arrivals), ask.header.sector_idx),
    ensures
        on_the_way(
            after_all(w, run_of(op.0, arrivals)),
            op,
            ask,
            senders(arrivals).to_set(),
            Set::empty(),
            reads,
        ),
    decreases arrivals.len(),
{
    if arrivals.len() == 0 {
        assert(senders(arrivals).to_set() =~= Set::<u8>::empty());
    } else {
        let rest = arrivals.drop_last();
        let a = arrivals.last();
        let first = run_of(op.0, rest);
        let delivery = ClusterEvent::Deliver { at: op.0, msg: a.msg, msg_ident: a.msg_ident };
        let whole = run_of(op.0, arrivals);
        assert(whole == (first + a.meanwhile).push(delivery));
        assert(whole.drop_last() =~= first + a.meanwhile);
        lemma_kept_room_splits(w, first, a.meanwhile, ask.header.sector_idx);
        lemma_answers_are_noted(w, op, ask, reads, rest);
        lemma_senders_grow(arrivals);
        let s = after_all(w, first);
        lemma_meanwhile(s, op, ask, senders(rest).to_set(), Set::empty(), reads, a.meanwhile);
        lemma_after_runs(w, first, a.meanwhile);
        let u = after_all(w, first + a.meanwhile);
        lemma_after_push(w, first + a.meanwhile, delivery);
        lemma_delivery_is_noted(
            u,
            op,
            ask,
            senders(rest).to_set(),
            Set::empty(),
            reads,
            a.msg,
            a.msg_ident,
        );
    }
}

/// Arrivals of acknowledgements, one after the other, at an operation past
/// its read phase: the acknowledgements of the processes that sent them are
/// noted, or the client has its answer.
proof fn lemma_acks_are_noted(
    w: Cluster,
    op: Op,
    ask: SystemCommandView,
    noted: Set<u8>,
    reads: bool,
    arrivals: Seq<Arrival>,
)
    requires
        on_the_way(w, op, ask, noted, Set::empty(), reads),
        past_reading(w, op),
        noted.finite(),
        arrive(w, op, arrivals, true),
        kept_room(w, run_of(op.0, arrivals), ask.header.sector_idx),
    ensures
        on_the_way(
            after_all(w, run_of(op.0, arrivals)),
            op,
            ask,
            noted,
            senders(arrivals).to_set(),
            reads,
        ),
        past_reading(after_all(w, run_of(op.0, arrivals)), op),
    decreases arrivals.len(),
{
    if arrivals.len() == 0 {
        assert(senders(arrivals).to_set() =~= Set::<u8>::empty());
    } else {
        let rest = arrivals.drop_last();
        let a = arrivals.last();
        let first = run_of(op.0, rest);
        let delivery = ClusterEvent::Deliver { at: op.0, msg: a.msg, msg_ident: a.msg_ident };
        let whole = run_of(op.0, arrivals);
        assert(whole == (first + a.meanwhile).push(delivery));
        assert(whole.drop_last() =~= first + a.meanwhile);
        lemma_kept_room_splits(w, first, a.meanwhile, ask.header.sector_idx);
        lemma_acks_are_noted(w, op, ask, noted, reads, rest);
        lemma_senders_grow(arrivals);
        let s = after_all(w, first);
        lemma_meanwhile(s, op, ask, noted, senders(rest).to_set(), reads, a.meanwhile);
        lemma_after_runs(w, first, a.meanwhile);
        let u = after_all(w, first + a.meanwhile);
        lemma_after_push(w, first + a.meanwhile, delivery);
        lemma_delivery_is_noted(
            u,
            op,
            ask,
            noted,
            senders(rest).to_set(),
            reads,
            a.msg,
            a.msg_ident,
        );
    }
}

/// The answers of a majority end the read phase. Take an operation in its
/// read phase and let answers for it arrive from more than half of the
/// processes, with whatever happens meanwhile, short of a restart of the
/// process that serves it and of the largest timestamp on a disk. Then the
/// operation is past its read phase.
pub proof fn lemma_answers_end_the_read_phase(
    w: Cluster,
    op: Op,
    ask: SystemCommandView,
    reads: bool,
    arrivals: Seq<Arrival>,
)
    requires
        on_the_way(w, op, ask, Set::empty(), Set::empty(), reads),
        arrive(w, op, arrivals, false),
        kept_room(w, run_of(op.0, arrivals), ask.header.sector_idx),
        senders(arrivals).no_duplicates(),
        2 * arrivals.len() > w.n,
    ensures
        on_the_way(
            after_all(w, run_of(op.0, arrivals)),
            op,
            ask,
            senders(arrivals).to_set(),
            Set::empty(),
            reads,
        ),
        past_reading(after_all(w, run_of(op.0, arrivals)), op),
{
    lemma_answers_are_noted(w, op, ask, reads, arrivals);
    senders(arrivals).unique_seq_to_set();
    lemma_run_keeps_size(w, run_of(op.0, arrivals));
}

/// The acknowledgements of a majority complete the operation. Take an
/// operation past its read phase and let acknowledgements for it arrive
/// from more than half of the processes, with whatever happens meanwhile,
/// short of a restart of the process that serves it and of the largest
/// timestamp on a disk. Then the client has its answer.
pub proof fn lemma_acks_complete_the_operation(
    w: Cluster,
    op: Op,
    ask: SystemCommandView,
    noted: Set<u8>,
    reads: bool,
    arrivals: Seq<Arrival>,
)
    requires
        on_the_way(w, op, ask, noted, Set::empty(), reads),
        past_reading(w, op),
        noted.finite(),
        arrive(w, op, arrivals, true),
        kept_room(w, run_of(op.0, arrivals), ask.header.sector_idx),
        senders(arrivals).no_duplicates(),
        2 * arrivals.len() > w.n,
    ensures
        after_all(w, run_of(op.0, arrivals)).finished.contains(op),
        reads ==> after_all(w, run_of(op.0, arrivals)).answered.dom().contains(op),
{
    lemma_acks_are_noted(w, op, ask, noted, reads, arrivals);
    senders(arrivals).unique_seq_to_set();
    lemma_run_keeps_size(w, run_of(op.0, arrivals));
}

/// The number of processes stays.
pub proof fn lemma_run_keeps_size(w: Cluster, events: Seq<ClusterEvent>)
    requires
        cluster_ok(w),
    ensures
        after_all(w, events).n == w.n,
        cluster_ok(after_all(w, events)),
    decreases events.len(),
{
    lemma_cluster_stays_ok(w, events);
    if events.len() > 0 {
        lemma_run_keeps_size(w, events.drop_last());
        lemma_cluster_stays_ok(w, events.drop_last());
        lemma_nothing_is_taken_back(after_all(w, events.drop_last()), events.last());
    }
}

/// A client's command that is taken puts its operation on the way: in its
/// read phase, with the question on its way to every process.
pub proof fn lemma_command_starts(w: Cluster, p: u8, cmd: ClientCommandView, msg_ident: u128)
    requires
        cluster_ok(w),
        room_in_flight(w, cmd.header.sector_idx),
        client_taken(w, p, cmd, msg_ident),
    ensures
        on_the_way(
            after_client(w, p, cmd, msg_ident),
            (p, (w.registers[p].rid + 1) as u64),
            question(p, (w.registers[p].rid + 1) as u64, cmd.header.sector_idx, msg_ident),
            Set::empty(),
            Set::empty(),
            cmd.content is Read,
        ),
        !past_reading(after_client(w, p, cmd, msg_ident), (p, (w.registers[p].rid + 1) as u64)),
{
    let v = after_client(w, p, cmd, msg_ident);
    let op = (p, (w.registers[p].rid + 1) as u64);
    let ask = question(p, op.1, cmd.header.sector_idx, msg_ident);
    lemma_client_keeps_ok(w, p, cmd, msg_ident);
    lemma_client_effects(w, p, cmd, msg_ident);
    assert(shape_ok(w));
    assert(!w.finished.contains(op)) by {
        if w.finished.contains(op) {
            assert(w.chosen.dom().contains(op));
        }
    }
    assert forall|q: u8| #[trigger] is_rank(v.n, q) implies v.sent.contains((q as usize, ask)) by {
        assert(is_rank(w.n, q));
    }
}

/// What is finished stays finished over a run.
pub proof fn lemma_finished_stays(w: Cluster, events: Seq<ClusterEvent>, op: Op)
    requires
        cluster_ok(w),
        w.finished.contains(op),
    ensures
        after_all(w, events).finished.contains(op),
    decreases events.len(),
{
    if events.len() > 0 {
        lemma_finished_stays(w, events.drop_last(), op);
        lemma_cluster_stays_ok(w, events.drop_last());
        lemma_nothing_is_taken_back(after_all(w, events.drop_last()), events.last());
    }
}

/// The run in which the answers and then the acknowledgements for an
/// operation at the process `p` arrive.
pub open spec fn run_for(p: u8, answers: Seq<Arrival>, acks: Seq<Arrival>) -> Seq<ClusterEvent> {
    run_of(p, answers) + run_of(p, acks)
}

/// The answers and then the acknowledgements of more than half of the
/// processes arrive for the operation, each on the network when it arrives,
/// with whatever happens meanwhile, short of a restart of the process that
/// serves the operation and of the largest timestamp on a disk.
pub open spec fn majority_arrives(
    w: Cluster,
    op: Op,
    ask: SystemCommandView,
    answers: Seq<Arrival>,
    acks: Seq<Arrival>,
) -> bool {
    let asked = after_all(w, run_of(op.0, answers));
    &&& arrive(w, op, answers, false)
    &&& kept_room(w, run_of(op.0, answers), ask.header.sector_idx)
    &&& senders(answers).no_duplicates()
    &&& 2 * answers.len() > w.n
    &&& arrive(asked, op, acks, true)
    &&& kept_room(asked, run_of(op.0, acks), ask.header.sector_idx)
    &&& senders(acks).no_duplicates()
    &&& 2 * acks.len() > w.n
}

/// An operation on its way is completed by a majority: once the answers and
/// then the acknowledgements of more than half of the processes have
/// arrived, the client has its answer.
pub proof fn lemma_majority_completes(
    w: Cluster,
    op: Op,
    ask: SystemCommandView,
    reads: bool,
    answers: Seq<Arrival>,
    acks: Seq<Arrival>,
)
    requires
        on_the_way(w, op, ask, Set::empty(), Set::empty(), reads),
        majority_arrives(w, op, ask, answers, acks),
    ensures
        cluster_ok(after_all(w, run_for(op.0, answers, acks))),
        after_all(w, run_for(op.0, answers, acks)).n == w.n,
        after_all(w, run_for(op.0, answers, acks)).finished.contains(op),
        reads ==> after_all(w, run_for(op.0, answers, acks)).answered.dom().contains(op),
{
    let asked = after_all(w, run_of(op.0, answers));
    lemma_answers_end_the_read_phase(w, op, ask, reads, answers);
    lemma_run_keeps_size(w, run_of(op.0, answers));
    vstd::seq_lib::seq_to_set_is_finite(senders(answers));
    lemma_acks_complete_the_operation(asked, op, ask, senders(answers).to_set(), reads, acks);
    lemma_run_keeps_size(asked, run_of(op.0, acks));
    lemma_after_runs(w, run_of(op.0, answers), run_of(op.0, acks));
}

/// Operations at different processes do not hinder each other. Take two
/// operations on their way, on whatever sectors, with no answer noted yet.
/// Let a majority complete the first, and then let the answers and the
/// acknowledgements of a majority arrive for the second, with whatever
/// happens meanwhile, short of a restart of the two processes and of the
/// largest timestamp on a disk. Then the clients of both have their
/// answers.
pub proof fn lemma_concurrent_operations_complete(
    w: Cluster,
    first: Op,
    first_ask: SystemCommandView,
    first_reads: bool,
    first_answers: Seq<Arrival>,
    first_acks: Seq<Arrival>,
    second: Op,
    second_ask: SystemCommandView,
    second_reads: bool,
    second_answers: Seq<Arrival>,
    second_acks: Seq<Arrival>,
)
    requires
        on_the_way(w, first, first_ask, Set::empty(), Set::empty(), first_reads),
        on_the_way(w, second, second_ask, Set::empty(), Set::empty(), second_reads),
        majority_arrives(w, first, first_ask, first_answers, first_acks),
        all_spare(run_for(first.0, first_answers, first_acks), second.0),
        kept_room(
            w,
            run_for(first.0, first_answers, first_acks),
            second_ask.header.sector_idx,
        ),
        majority_arrives(
            after_all(w, run_for(first.0, first_answers, first_acks)),
            second,
            second_ask,
            second_answers,
            second_acks,
        ),
    ensures
        ({
            let run = run_for(first.0, first_answers, first_acks) + run_for(
                second.0,
                second_answers,
                second_acks,
            );
            let v = after_all(w, run);
            &&& v.finished.contains(first)
            &&& v.finished.contains(second)
            &&& first_reads ==> v.answered.dom().contains(first)
            &&& second_reads ==> v.answered.dom().contains(second)
        }),
{
    let one = run_for(first.0, first_answers, first_acks);
    let two = run_for(second.0, second_answers, second_acks);
    let u = after_all(w, one);
    lemma_majority_completes(w, first, first_ask, first_reads, first_answers, first_acks);
    lemma_meanwhile(
        w,
        second,
        second_ask,
        Set::empty(),
        Set::empty(),
        second_reads,
        one,
    );
    lemma_majority_completes(u, second, second_ask, second_reads, second_answers, second_acks);
    lemma_finished_stays(u, two, first);
    lemma_answered_stays(u, two, first);
    lemma_after_runs(w, one, two);
}

/// An answer that was given stays given over a run.
pub proof fn lemma_answered_stays(w: Cluster, events: Seq<ClusterEvent>, op: Op)
    requires
        cluster_ok(w),
    ensures
        w.answered.dom().contains(op) ==> after_all(w, events).answered.dom().contains(op),
    decreases events.len(),
{
    if events.len() > 0 {
        lemma_answered_stays(w, events.drop_last(), op);
        lemma_cluster_stays_ok(w, events.drop_last());
        lemma_nothing_is_taken_back(after_all(w, events.drop_last()), events.last());
    }
}

/// Two commands that two idle processes take, one after the other, put two
/// operations on their way at once: each in its read phase, with its
/// question on its way to every process.
pub proof fn lemma_two_commands_start(
    w: Cluster,
    first_at: u8,
    first_cmd: ClientCommandView,
    first_ident: u128,
    second_at: u8,
    second_cmd: ClientCommandView,
    second_ident: u128,
)
    requires
        cluster_ok(w),
        first_at != second_at,
        room_in_flight(w, first_cmd.header.sector_idx),
        room_in_flight(w, second_cmd.header.sector_idx),
        room_on_disks(w, first_cmd.header.sector_idx),
        client_taken(w, first_at, first_cmd, first_ident),
        client_taken(w, second_at, second_cmd, second_ident),
    ensures
        ({
            let v = after_client(
                after_client(w, first_at, first_cmd, first_ident),
                second_at,
                second_cmd,
                second_ident,
            );
            let first = (first_at, (w.registers[first_at].rid + 1) as u64);
            let second = (second_at, (w.registers[second_at].rid + 1) as u64);
            &&& on_the_way(
                v,
                first,
                question(first_at, first.1, first_cmd.header.sector_idx, first_ident),
                Set::empty(),
                Set::empty(),
                first_cmd.content is Read,
            )
            &&& on_the_way(
                v,
                second,
                question(second_at, second.1, second_cmd.header.sector_idx, second_ident),
                Set::empty(),
                Set::empty(),
                second_cmd.content is Read,
            )
        }),
{
    let u = after_client(w, first_at, first_cmd, first_ident);
    let first = (first_at, (w.registers[first_at].rid + 1) as u64);
    let ask = question(first_at, first.1, first_cmd.header.sector_idx, first_ident);
    lemma_command_starts(w, first_at, first_cmd, first_ident);
    lemma_client_effects(w, first_at, first_cmd, first_ident);
    lemma_client_keeps_ok(w, first_at, first_cmd, first_ident);
    assert(shape_ok(w));
    assert(u.registers[second_at] == w.registers[second_at]);
    assert(client_taken(u, second_at, second_cmd, second_ident));
    assert(room_in_flight(u, second_cmd.header.sector_idx));
    assert(room_on_disks(u, first_cmd.header.sector_idx)) by {
        assert forall|q: u8| #[trigger] is_rank(u.n, q) implies u.disks[(
            q,
            first_cmd.header.sector_idx,
        )].stamp.0 < u64::MAX by {
            assert(is_rank(w.n, q));
        }
    }
    lemma_command_starts(u, second_at, second_cmd, second_ident);
    let event = ClusterEvent::Client { at: second_at, cmd: second_cmd, msg_ident: second_ident };
    lemma_stays_on_the_way(
        u,
        first,
        ask,
        Set::empty(),
        Set::empty(),
        first_cmd.content is Read,
        event,
    );
    assert(after(u, event) == after_client(u, second_at, second_cmd, second_ident));
}

} // verus!
