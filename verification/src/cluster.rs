//! The processes of a register together: their registers, their disks, and
//! the messages between them.
//!
//! A message that was sent may be delivered at any time, any number of
//! times, or never; no other message is delivered. A process may restart at
//! any time and builds its register anew from its disk. A crash in the
//! middle of a step is a step whose messages are never delivered, followed
//! by a restart: what a step stores, it stores before it sends. A client
//! may hand a command to any process at any time; a register that serves a
//! client refuses it.
//!
//! What is proved here is the order in which the operations on a sector
//! take effect: by their stamps, a write before the reads that impose its
//! stamp, and those reads as they started. It is a total order, since
//! every write has a stamp of its own. It follows time: an operation that
//! starts when the client of another has its answer takes effect behind
//! it. And a read returns what the client of the last write before it
//! gave, or zeros where there is none.

use crate::domain::{
    zero_sector, ClientCommandView, ClientContentView, SystemCommandView, SystemContentView,
};
use crate::register::{
    all_answers, client_outcome, ends_operation, ends_read_phase, initial_model, later, latest,
    majority, message_from, system_outcome, EffectView, RegisterModel,
};
use crate::register_laws::{lemma_latest_is_latest, lemma_read_sees_complete_write, not_earlier};
use vstd::prelude::*;

verus! {

/// A timestamp with the rank of its writer.
pub type Stamp = (u64, u8);

/// An operation: the process that serves it and its read identifier there.
pub type Op = (u8, u64);

/// `a` is `b` or later.
pub open spec fn at_least(a: Stamp, b: Stamp) -> bool {
    not_earlier(a.0, a.1, b.0, b.1)
}

/// A sector on the disk of a process: the rank of the process and the
/// index of the sector.
pub type Place = (u8, u64);

/// What the disk of a process holds for a sector: its stamp and its data.
pub struct Disk {
    pub stamp: Stamp,
    pub data: Seq<u8>,
}

/// The processes of a register together.
pub struct Cluster {
    /// Number of processes; their ranks are 1 to `n`.
    pub n: usize,
    /// The register of each process.
    pub registers: Map<u8, RegisterModel>,
    /// The read identifier on the disk of each process.
    pub rids: Map<u8, u64>,
    /// What the disk of each process holds for each sector.
    pub disks: Map<Place, Disk>,
    /// Every message that was handed to the network, with its target.
    pub sent: Set<(usize, SystemCommandView)>,
    /// For each operation that has started, the sector that it is on.
    pub serving: Map<Op, u64>,
    /// For each operation that has started, the stamps of the operations on
    /// its sector that were complete when it started.
    pub floor: Map<Op, Set<Stamp>>,
    /// For each operation that has ended its read phase, the stamp that it
    /// imposes.
    pub chosen: Map<Op, Stamp>,
    /// The stamps of the operations that are complete, each with its
    /// sector.
    pub complete: Set<(u64, Stamp)>,
    /// For each stamp of a complete operation on a sector, the processes
    /// that had acknowledged it when the first such operation was complete.
    pub holders: Map<(u64, Stamp), Set<u8>>,
    /// For each stamp that a write on a sector has chosen, the data of that
    /// write.
    pub written: Map<(u64, Stamp), Seq<u8>>,
    /// The writes that have chosen their stamp.
    pub wrote: Set<Op>,
    /// For each write that has started, the data that its client gave.
    pub given: Map<Op, Seq<u8>>,
    /// For each read that is complete, the sector that the client got.
    pub answered: Map<Op, Seq<u8>>,
    /// The operations whose client has its answer.
    pub finished: Set<Op>,
    /// For each operation that has started, the operations whose clients
    /// had their answers when it started.
    pub preceded: Map<Op, Set<Op>>,
    /// The number of operations that have started.
    pub clock: nat,
    /// For each operation that has started, the number of those that had
    /// started before it.
    pub started: Map<Op, nat>,
}

/// What may happen in a cluster.
pub enum ClusterEvent {
    /// A client hands a command to a process.
    Client { at: u8, cmd: ClientCommandView, msg_ident: u128 },
    /// The network hands a message that was sent to its target.
    Deliver { at: u8, msg: SystemCommandView, msg_ident: u128 },
    /// A process loses its memory and builds its register anew from its
    /// disk.
    Restart { at: u8 },
}

/// `q` is the rank of one of `n` processes.
pub open spec fn is_rank(n: usize, q: u8) -> bool {
    1 <= q <= n
}

/// The stamps that were complete when the operation started; none for an
/// operation that has not started.
pub open spec fn floor_of(floor: Map<Op, Set<Stamp>>, op: Op) -> Set<Stamp> {
    if floor.dom().contains(op) {
        floor[op]
    } else {
        Set::empty()
    }
}

/// What a register knows of the sectors when it has recovered them: the
/// stamp of each on the disk of its process.
pub open spec fn stamps_on(disks: Map<Place, Disk>, rank: u8) -> Map<u64, (u64, u8)> {
    Map::new(|s: u64| true, |s: u64| disks[(rank, s)].stamp)
}

/// A register as a process builds it from its disk, with every sector
/// recovered.
pub open spec fn recovered(rank: u8, n: usize, rid: u64, disks: Map<Place, Disk>)
    -> RegisterModel {
    RegisterModel { stamps: stamps_on(disks, rank), ..initial_model(rank, n, rid) }
}

/// The disks at the start: every sector of every process was never written.
pub open spec fn blank_disks(n: usize) -> Map<Place, Disk> {
    Map::new(
        |x: Place| 1 <= x.0 <= n,
        |x: Place| Disk { stamp: (0, 0), data: zero_sector() },
    )
}

/// A cluster at its start: empty disks, no message, no operation.
pub open spec fn initial_cluster(n: usize) -> Cluster {
    Cluster {
        n,
        registers: Map::new(|q: u8| 1 <= q <= n, |q: u8| recovered(q, n, 0, blank_disks(n))),
        rids: Map::new(|q: u8| 1 <= q <= n, |q: u8| 0u64),
        disks: blank_disks(n),
        sent: Set::empty(),
        serving: Map::empty(),
        floor: Map::empty(),
        chosen: Map::empty(),
        complete: Set::empty(),
        holders: Map::empty(),
        written: Map::empty(),
        wrote: Set::empty(),
        given: Map::empty(),
        answered: Map::empty(),
        finished: Set::empty(),
        preceded: Map::empty(),
        clock: 0,
        started: Map::empty(),
    }
}

/// The effect hands the message `x.1` to the network for the process `x.0`.
pub open spec fn posts(n: usize, effect: EffectView, x: (usize, SystemCommandView)) -> bool {
    match effect {
        EffectView::Broadcast { cmd } => x.1 == cmd && 1 <= x.0 <= n,
        EffectView::Send { cmd, target } => x == (target, cmd),
        _ => false,
    }
}

/// The network after the effects of a step.
pub open spec fn sent_after(
    n: usize,
    sent: Set<(usize, SystemCommandView)>,
    effects: Seq<EffectView>,
) -> Set<(usize, SystemCommandView)> {
    Set::new(
        |x: (usize, SystemCommandView)|
            sent.contains(x) || exists|i: int| 0 <= i < effects.len() && posts(n, effects[i], x),
    )
}

/// The disk after one effect of a step.
pub open spec fn disk_after_effect(disk: Disk, effect: EffectView) -> Disk {
    match effect {
        EffectView::StoreSector { data, timestamp, write_rank, .. } => Disk {
            stamp: (timestamp, write_rank),
            data,
        },
        _ => disk,
    }
}

/// The read identifier on the disk after one effect of a step.
pub open spec fn rid_after_effect(rid: u64, effect: EffectView) -> u64 {
    match effect {
        EffectView::StoreRid { rid: stored } => stored,
        _ => rid,
    }
}

/// The read identifier on the disk after the effects of a step, in their
/// order.
pub open spec fn rid_after(rid: u64, effects: Seq<EffectView>) -> u64
    decreases effects.len(),
{
    if effects.len() == 0 {
        rid
    } else {
        rid_after_effect(rid_after(rid, effects.drop_last()), effects.last())
    }
}

/// The disk after the effects of a step, in their order.
pub open spec fn disk_after(disk: Disk, effects: Seq<EffectView>) -> Disk
    decreases effects.len(),
{
    if effects.len() == 0 {
        disk
    } else {
        disk_after_effect(disk_after(disk, effects.drop_last()), effects.last())
    }
}

/// The stamps of the operations on a sector that are complete.
pub open spec fn complete_on(complete: Set<(u64, Stamp)>, sector: u64) -> Set<Stamp> {
    Set::new(|st: Stamp| complete.contains((sector, st)))
}

/// A client's command at a process: taken where the register takes it, and
/// without effect where the register refuses it, as it does while a client
/// waits.
pub open spec fn after_client(w: Cluster, at: u8, cmd: ClientCommandView, msg_ident: u128)
    -> Cluster {
    let m = w.registers[at];
    if !is_rank(w.n, at) {
        w
    } else {
        match client_outcome(m, cmd, msg_ident).1 {
            Err(_) => w,
            Ok(effects) => {
                let op = (at, client_outcome(m, cmd, msg_ident).0.rid);
                Cluster {
                    registers: w.registers.insert(at, client_outcome(m, cmd, msg_ident).0),
                    rids: w.rids.insert(at, rid_after(w.rids[at], effects)),
                    sent: sent_after(w.n, w.sent, effects),
                    serving: w.serving.insert(op, cmd.header.sector_idx),
                    floor: w.floor.insert(op, complete_on(w.complete, cmd.header.sector_idx)),
                    given: match cmd.content {
                        ClientContentView::Write { data } => w.given.insert(op, data),
                        ClientContentView::Read => w.given,
                    },
                    preceded: w.preceded.insert(op, w.finished),
                    clock: w.clock + 1,
                    started: w.started.insert(op, w.clock),
                    ..w
                }
            },
        }
    }
}

/// The stamp that a `Value` which ends the read phase makes the operation
/// impose: the latest answer for a read, the next timestamp with the rank
/// of the process for a write.
pub open spec fn imposed_stamp(m: RegisterModel, msg: SystemCommandView, stored: Seq<u8>)
    -> Stamp {
    let top = latest(all_answers(m, msg, stored));
    if m.reading {
        (top.0, top.1)
    } else {
        ((top.0 + 1) as u64, m.self_ident)
    }
}

/// A message at its target: the step of the register with the sector as it
/// stands on the disk, its effects on the disk and on the network, and what
/// it tells of operations. A message that was never sent to the process is
/// not delivered.
pub open spec fn after_deliver(w: Cluster, at: u8, msg: SystemCommandView, msg_ident: u128)
    -> Cluster {
    let m = w.registers[at];
    let s = msg.header.sector_idx;
    let disk = w.disks[(at, s)];
    let outcome = system_outcome(m, msg, Some(disk.data), msg_ident);
    if !is_rank(w.n, at) || !w.sent.contains((at as usize, msg)) {
        w
    } else {
        match outcome.1 {
            Err(_) => Cluster { registers: w.registers.insert(at, outcome.0), ..w },
            Ok(effects) => {
                let ends_read = msg.content is Value && ends_read_phase(m, msg.header);
                let ends_op = msg.content is Ack && ends_operation(m, msg.header);
                let op = (at, m.rid);
                let newly = ends_op && !w.complete.contains((s, w.chosen[op]));
                Cluster {
                    registers: w.registers.insert(at, outcome.0),
                    disks: w.disks.insert((at, s), disk_after(disk, effects)),
                    sent: sent_after(w.n, w.sent, effects),
                    chosen: if ends_read {
                        w.chosen.insert(op, imposed_stamp(m, msg, disk.data))
                    } else {
                        w.chosen
                    },
                    complete: if ends_op {
                        w.complete.insert((s, w.chosen[op]))
                    } else {
                        w.complete
                    },
                    holders: if newly {
                        w.holders.insert(
                            (s, w.chosen[op]),
                            m.acklist.insert(msg.header.process_identifier),
                        )
                    } else {
                        w.holders
                    },
                    written: if ends_read && !m.reading {
                        w.written.insert((s, imposed_stamp(m, msg, disk.data)), m.writeval)
                    } else {
                        w.written
                    },
                    wrote: if ends_read && !m.reading {
                        w.wrote.insert(op)
                    } else {
                        w.wrote
                    },
                    answered: if ends_op && m.reading {
                        w.answered.insert(op, m.readval)
                    } else {
                        w.answered
                    },
                    finished: if ends_op {
                        w.finished.insert(op)
                    } else {
                        w.finished
                    },
                    ..w
                }
            },
        }
    }
}

/// A restart: the register is built anew from the disk.
pub open spec fn after_restart(w: Cluster, at: u8) -> Cluster {
    if !is_rank(w.n, at) {
        w
    } else {
        Cluster {
            registers: w.registers.insert(at, recovered(at, w.n, w.rids[at], w.disks)),
            ..w
        }
    }
}

/// The cluster after an event.
pub open spec fn after(w: Cluster, event: ClusterEvent) -> Cluster {
    match event {
        ClusterEvent::Client { at, cmd, msg_ident } => after_client(w, at, cmd, msg_ident),
        ClusterEvent::Deliver { at, msg, msg_ident } => after_deliver(w, at, msg, msg_ident),
        ClusterEvent::Restart { at } => after_restart(w, at),
    }
}

/// The cluster after a run of events.
pub open spec fn after_all(w: Cluster, events: Seq<ClusterEvent>) -> Cluster
    decreases events.len(),
{
    if events.len() == 0 {
        w
    } else {
        after(after_all(w, events.drop_last()), events.last())
    }
}

/// The register of the process `q` knows of the sector `s` what the disk of
/// the process holds for it.
pub open spec fn knows(w: Cluster, q: u8, s: u64) -> bool {
    &&& w.disks.dom().contains((q, s))
    &&& w.registers[q].stamps.dom().contains(s)
    &&& w.registers[q].stamps[s] == w.disks[(q, s)].stamp
}

/// The register of each process is that of the process, knows of every
/// sector what the disk holds, and serves at most one client, in one phase.
pub open spec fn shape_ok(w: Cluster) -> bool {
    &&& w.n <= 255
    &&& forall|q: u8, s: u64| is_rank(w.n, q) ==> #[trigger] knows(w, q, s)
    &&& forall|q: u8| #[trigger]
        is_rank(w.n, q) ==> w.registers.dom().contains(q) && w.rids.dom().contains(q) && ({
            let m = w.registers[q];
            &&& m.self_ident == q
            &&& m.processes_count == w.n
            &&& m.rid == w.rids[q]
            &&& m.pending <==> (m.reading || m.writing)
            &&& !(m.reading && m.writing)
            &&& m.write_phase ==> (m.reading || m.writing)
            &&& m.acklist.finite()
            &&& m.readlist.dom().finite()
            &&& forall|p: u8| m.readlist.dom().contains(p) ==> #[trigger] is_rank(w.n, p)
            &&& forall|p: u8| m.acklist.contains(p) ==> #[trigger] is_rank(w.n, p)
        })
}

/// What holds of a message on the network. It comes from a process and goes
/// to one. A `ReadProc` and the `Value` that answers it belong to an
/// operation that has started, on their sector, and the `Value` is not
/// earlier than any operation on the sector that was complete before and
/// that its sender had acknowledged. A `WriteProc` carries the stamp that
/// its operation imposes. An `Ack` comes from a process whose disk holds
/// that stamp or a later one.
pub open spec fn message_ok(w: Cluster, target: usize, msg: SystemCommandView) -> bool {
    let q = msg.header.process_identifier;
    let r = msg.header.read_ident;
    let s = msg.header.sector_idx;
    &&& is_rank(w.n, q)
    &&& 1 <= target <= w.n
    &&& match msg.content {
        SystemContentView::ReadProc => w.floor.dom().contains((q, r)) && w.serving[(q, r)] == s,
        SystemContentView::Value { timestamp, write_rank, .. } => w.floor.dom().contains(
            (target as u8, r),
        ) && w.serving[(target as u8, r)] == s && forall|st: Stamp| #[trigger]
            floor_of(w.floor, (target as u8, r)).contains(st) && w.holders[(s, st)].contains(q)
                ==> at_least((timestamp, write_rank), st),
        SystemContentView::WriteProc { timestamp, write_rank, .. } => w.chosen.dom().contains(
            (q, r),
        ) && w.chosen[(q, r)] == (timestamp, write_rank) && w.serving[(q, r)] == s,
        SystemContentView::Ack => w.chosen.dom().contains((target as u8, r)) && w.serving[(
            target as u8,
            r,
        )] == s && at_least(w.disks[(q, s)].stamp, w.chosen[(target as u8, r)]),
    }
}

/// What holds of the processes that had acknowledged a complete stamp on a
/// sector: they are more than half of all, and the disk of each holds for
/// the sector the stamp or a later one.
pub open spec fn holders_ok(w: Cluster, s: u64, st: Stamp) -> bool {
    let a = w.holders[(s, st)];
    &&& a.finite()
    &&& 2 * a.len() > w.n
    &&& forall|q: u8| #[trigger]
        a.contains(q) ==> is_rank(w.n, q) && at_least(w.disks[(q, s)].stamp, st)
}

/// What holds of operations: one that has started was started by a process
/// with a read identifier that its disk has reached, behind operations on
/// its sector that are complete; the stamp that one imposes is not earlier
/// than that of any operation that was complete when it started; a complete
/// stamp has its holders; and an operation whose client has its answer has
/// imposed its stamp.
pub open spec fn history_ok(w: Cluster) -> bool {
    &&& forall|op: Op| #[trigger]
        w.floor.dom().contains(op) ==> is_rank(w.n, op.0) && op.1 <= w.rids[op.0]
    &&& forall|op: Op, st: Stamp|
        w.floor.dom().contains(op) && #[trigger] w.floor[op].contains(st)
            ==> w.complete.contains((w.serving[op], st))
    &&& forall|op: Op| #[trigger]
        w.chosen.dom().contains(op) ==> is_rank(w.n, op.0) && op.1 <= w.rids[op.0]
            && w.floor.dom().contains(op)
    &&& forall|op: Op, st: Stamp|
        w.chosen.dom().contains(op) && #[trigger] floor_of(w.floor, op).contains(st) ==> at_least(
            #[trigger] w.chosen[op],
            st,
        )
    &&& forall|s: u64, st: Stamp| #[trigger]
        w.complete.contains((s, st)) ==> w.holders.dom().contains((s, st)) && holders_ok(w, s, st)
    &&& forall|op: Op| #[trigger] w.finished.contains(op) ==> w.chosen.dom().contains(op)
}

/// What holds of the register of a process and the operation that it
/// serves.
pub open spec fn register_ok(w: Cluster, p: u8) -> bool {
    let m = w.registers[p];
    let op = (p, m.rid);
    let s = w.serving[op];
    &&& (m.reading || m.writing) ==> w.floor.dom().contains(op)
    &&& (m.reading || m.writing) && !m.write_phase ==> !w.chosen.dom().contains(op)
    &&& m.write_phase ==> w.chosen.dom().contains(op) && forall|q: u8| #[trigger]
        m.acklist.contains(q) ==> at_least(w.disks[(q, s)].stamp, w.chosen[op])
    &&& forall|q: u8, st: Stamp|
        m.readlist.dom().contains(q) && #[trigger] floor_of(w.floor, op).contains(st)
            && #[trigger] w.holders[(s, st)].contains(q) ==> at_least(
            (m.readlist[q].0, m.readlist[q].1),
            st,
        )
}

/// What holds of a cluster whatever has happened.
pub open spec fn cluster_ok(w: Cluster) -> bool {
    &&& shape_ok(w)
    &&& history_ok(w)
    &&& forall|target: usize, msg: SystemCommandView| #[trigger]
        w.sent.contains((target, msg)) ==> message_ok(w, target, msg)
    &&& forall|p: u8| is_rank(w.n, p) ==> #[trigger] register_ok(w, p)
}

/// A cluster starts well.
pub proof fn lemma_initial_cluster_ok(n: usize)
    requires
        n <= 255,
    ensures
        cluster_ok(initial_cluster(n)),
{
    let w = initial_cluster(n);
    assert forall|q: u8| #[trigger] is_rank(w.n, q) implies w.registers[q].readlist.dom().finite()
        && w.registers[q].acklist.finite() by {}
}

/// A restart keeps a cluster well.
pub proof fn lemma_restart_keeps_ok(w: Cluster, at: u8)
    requires
        cluster_ok(w),
    ensures
        cluster_ok(after_restart(w, at)),
{
    let v = after_restart(w, at);
    if is_rank(w.n, at) {
        assert forall|q: u8, s: u64| is_rank(v.n, q) implies #[trigger] knows(v, q, s) by {
            assert(knows(w, q, s));
        }
        assert forall|q: u8| #[trigger] is_rank(v.n, q) implies register_ok(v, q) by {
            assert(is_rank(w.n, q));
            assert(register_ok(w, q));
        }
        assert forall|target: usize, msg: SystemCommandView| #[trigger]
            v.sent.contains((target, msg)) implies message_ok(v, target, msg) by {
            assert(message_ok(w, target, msg));
        }
        assert forall|s: u64, st: Stamp| #[trigger]
            v.complete.contains((s, st)) implies v.holders.dom().contains((s, st)) && holders_ok(
            v,
            s,
            st,
        ) by {
            assert(holders_ok(w, s, st));
        }
    }
}

/// What a client's command that is taken does to the disk and to the
/// network: the next read identifier is stored, and a `ReadProc` goes to
/// every process.
pub proof fn lemma_client_effects(w: Cluster, at: u8, cmd: ClientCommandView, msg_ident: u128)
    requires
        client_outcome(w.registers[at], cmd, msg_ident).1 is Ok,
    ensures
        ({
            let m = w.registers[at];
            let effects = client_outcome(m, cmd, msg_ident).1->Ok_0;
            let next = client_outcome(m, cmd, msg_ident).0;
            &&& next.rid == m.rid + 1
            &&& next.stamps == m.stamps
            &&& rid_after(w.rids[at], effects) == next.rid
            &&& forall|target: usize, msg: SystemCommandView| #[trigger]
                sent_after(w.n, w.sent, effects).contains((target, msg)) <==> w.sent.contains(
                    (target, msg),
                ) || (1 <= target <= w.n && msg.content is ReadProc && msg.header.read_ident
                    == next.rid && msg.header.sector_idx == cmd.header.sector_idx
                    && msg.header.process_identifier == m.self_ident && msg.header.msg_ident
                    == msg_ident)
        }),
{
    let m = w.registers[at];
    let effects = client_outcome(m, cmd, msg_ident).1->Ok_0;
    reveal_with_fuel(rid_after, 3);
    assert(effects.drop_last().drop_last().len() == 0);
    assert(effects.drop_last().last() == effects[0]);
    assert forall|target: usize, msg: SystemCommandView| #[trigger]
        sent_after(w.n, w.sent, effects).contains((target, msg)) <==> w.sent.contains(
            (target, msg),
        ) || (1 <= target <= w.n && msg.content is ReadProc && msg.header.read_ident == m.rid + 1
            && msg.header.sector_idx == cmd.header.sector_idx && msg.header.process_identifier
            == m.self_ident && msg.header.msg_ident == msg_ident) by {
        if 1 <= target <= w.n && msg == effects[1]->Broadcast_cmd {
            assert(posts(w.n, effects[1], (target, msg)));
        }
    }
}

/// A client's command keeps a cluster well.
pub proof fn lemma_client_keeps_ok(w: Cluster, at: u8, cmd: ClientCommandView, msg_ident: u128)
    requires
        cluster_ok(w),
    ensures
        cluster_ok(after_client(w, at, cmd, msg_ident)),
{
    let v = after_client(w, at, cmd, msg_ident);
    let m = w.registers[at];
    if is_rank(w.n, at) && !m.pending && client_outcome(m, cmd, msg_ident).1 is Ok {
        lemma_client_effects(w, at, cmd, msg_ident);
        let next = client_outcome(m, cmd, msg_ident).0;
        let started = (at, next.rid);
        assert(register_ok(w, at));
        assert(!w.floor.dom().contains(started));
        assert(!w.chosen.dom().contains(started));
        assert forall|op: Op| #[trigger] w.floor.dom().contains(op) implies floor_of(v.floor, op)
            == floor_of(w.floor, op) && v.serving[op] == w.serving[op] by {}
        assert(shape_ok(v)) by {
            assert forall|q: u8, s: u64| is_rank(v.n, q) implies #[trigger] knows(v, q, s) by {
                assert(knows(w, q, s));
            }
            assert forall|q: u8| #[trigger] is_rank(v.n, q) implies v.registers.dom().contains(q)
                && v.rids.dom().contains(q) && v.registers[q].rid == v.rids[q] by {
                assert(is_rank(w.n, q));
            }
        }
        assert(history_ok(v)) by {
            assert forall|s: u64, st: Stamp| #[trigger]
                v.complete.contains((s, st)) implies v.holders.dom().contains((s, st))
                && holders_ok(v, s, st) by {
                assert(holders_ok(w, s, st));
            }
            assert forall|op: Op, st: Stamp|
                v.chosen.dom().contains(op) && #[trigger] floor_of(v.floor, op).contains(
                    st,
                ) implies at_least(#[trigger] v.chosen[op], st) by {
                assert(floor_of(w.floor, op).contains(st));
            }
            assert forall|op: Op, st: Stamp|
                v.floor.dom().contains(op) && #[trigger] v.floor[op].contains(
                    st,
                ) implies v.complete.contains((v.serving[op], st)) by {
                if op != started {
                    assert(w.floor.dom().contains(op));
                    assert(w.floor[op].contains(st));
                }
            }
        }
        assert forall|target: usize, msg: SystemCommandView| #[trigger]
            v.sent.contains((target, msg)) implies message_ok(v, target, msg) by {
            if w.sent.contains((target, msg)) {
                assert(message_ok(w, target, msg));
                let q = msg.header.process_identifier;
                let r = msg.header.read_ident;
                if msg.content is Value {
                    assert(floor_of(v.floor, (target as u8, r)) == floor_of(
                        w.floor,
                        (target as u8, r),
                    ));
                }
                if msg.content is WriteProc {
                    assert(w.chosen.dom().contains((q, r)));
                }
                if msg.content is Ack {
                    assert(w.chosen.dom().contains((target as u8, r)));
                }
            }
        }
        assert forall|p: u8| is_rank(v.n, p) implies #[trigger] register_ok(v, p) by {
            assert(is_rank(w.n, p));
            assert(register_ok(w, p));
            let mp = w.registers[p];
            if p != at {
                assert(floor_of(v.floor, (p, mp.rid)) == floor_of(w.floor, (p, mp.rid)));
                if mp.write_phase {
                    assert(w.chosen.dom().contains((p, mp.rid)));
                }
                assert forall|q: u8, st: Stamp|
                    mp.readlist.dom().contains(q) && #[trigger] floor_of(
                        v.floor,
                        (p, mp.rid),
                    ).contains(st) && #[trigger] v.holders[(v.serving[(p, mp.rid)], st)].contains(
                        q,
                    ) implies at_least((mp.readlist[q].0, mp.readlist[q].1), st) by {
                    assert(w.floor.dom().contains((p, mp.rid)));
                }
            }
        }
    }
}

/// The message `out` is what the step for `msg` at the process `at` hands
/// to the network for the process `target`.
pub open spec fn emitted(
    w: Cluster,
    at: u8,
    msg: SystemCommandView,
    msg_ident: u128,
    target: usize,
    out: SystemCommandView,
) -> bool {
    let m = w.registers[at];
    let h = msg.header;
    let disk = w.disks[(at, h.sector_idx)];
    match msg.content {
        SystemContentView::ReadProc => target == h.process_identifier as usize && out
            == message_from(
            m,
            msg_ident,
            h.read_ident,
            h.sector_idx,
            SystemContentView::Value {
                timestamp: disk.stamp.0,
                write_rank: disk.stamp.1,
                sector_data: disk.data,
            },
        ),
        SystemContentView::Value { .. } => ends_read_phase(m, h) && 1 <= target <= w.n && out
            == message_from(
            m,
            msg_ident,
            m.rid,
            h.sector_idx,
            SystemContentView::WriteProc {
                timestamp: imposed_stamp(m, msg, disk.data).0,
                write_rank: imposed_stamp(m, msg, disk.data).1,
                data_to_write: if m.reading {
                    latest(all_answers(m, msg, disk.data)).2
                } else {
                    m.writeval
                },
            },
        ),
        SystemContentView::WriteProc { .. } => target == h.process_identifier as usize && out
            == message_from(m, msg_ident, h.read_ident, h.sector_idx, SystemContentView::Ack),
        SystemContentView::Ack => false,
    }
}

/// What the step for a message does to the disk and to the network: the
/// disk holds for the sector of the message what the register knows of it
/// afterwards, which is never earlier than before; of the other sectors the
/// register knows what it knew; and the network has what was emitted.
pub proof fn lemma_deliver_effects(w: Cluster, at: u8, msg: SystemCommandView, msg_ident: u128)
    requires
        knows(w, at, msg.header.sector_idx),
        system_outcome(
            w.registers[at],
            msg,
            Some(w.disks[(at, msg.header.sector_idx)].data),
            msg_ident,
        ).1 is Ok,
    ensures
        ({
            let m = w.registers[at];
            let s = msg.header.sector_idx;
            let disk = w.disks[(at, s)];
            let outcome = system_outcome(m, msg, Some(disk.data), msg_ident);
            let effects = outcome.1->Ok_0;
            let next = disk_after(disk, effects);
            &&& outcome.0.rid == m.rid
            &&& outcome.0.stamps.dom().contains(s)
            &&& next.stamp == outcome.0.stamps[s]
            &&& forall|other: u64|
                other != s && #[trigger] m.stamps.dom().contains(other)
                    ==> outcome.0.stamps.dom().contains(other) && outcome.0.stamps[other]
                    == m.stamps[other]
            &&& at_least(next.stamp, disk.stamp)
            &&& msg.content is ReadProc || msg.content is Ack ==> next == disk
            &&& msg.content matches SystemContentView::WriteProc { timestamp, write_rank, .. }
                ==> at_least(next.stamp, (timestamp, write_rank))
            &&& msg.content is Value && ends_read_phase(m, msg.header) ==> at_least(
                imposed_stamp(m, msg, disk.data),
                disk.stamp,
            ) && (!m.reading ==> next.stamp == imposed_stamp(m, msg, disk.data)) && (m.reading
                ==> next == disk)
            &&& msg.content is Value && !ends_read_phase(m, msg.header) ==> next == disk
            &&& msg.content matches SystemContentView::WriteProc {
                timestamp,
                write_rank,
                data_to_write,
            } ==> next == disk || next == (Disk {
                stamp: (timestamp, write_rank),
                data: data_to_write,
            })
            &&& msg.content is Value && ends_read_phase(m, msg.header) && !m.reading ==> next == (
            Disk { stamp: imposed_stamp(m, msg, disk.data), data: m.writeval })
            &&& forall|target: usize, out: SystemCommandView| #[trigger]
                sent_after(w.n, w.sent, effects).contains((target, out)) <==> w.sent.contains(
                    (target, out),
                ) || emitted(w, at, msg, msg_ident, target, out)
        }),
{
    let m = w.registers[at];
    let s = msg.header.sector_idx;
    let disk = w.disks[(at, s)];
    let outcome = system_outcome(m, msg, Some(disk.data), msg_ident);
    let effects = outcome.1->Ok_0;
    reveal_with_fuel(disk_after, 3);
    if effects.len() == 1 {
        assert(effects.drop_last().len() == 0);
    }
    if effects.len() == 2 {
        assert(effects.drop_last().drop_last().len() == 0);
        assert(effects.drop_last().last() == effects[0]);
    }
    if msg.content is Value && ends_read_phase(m, msg.header) {
        let heard = all_answers(m, msg, disk.data);
        lemma_latest_is_latest(heard, m.self_ident);
        assert(heard.dom().contains(m.self_ident));
        assert(heard[m.self_ident].0 == disk.stamp.0 && heard[m.self_ident].1 == disk.stamp.1);
    }
    assert forall|target: usize, out: SystemCommandView| #[trigger]
        sent_after(w.n, w.sent, effects).contains((target, out)) <==> w.sent.contains(
            (target, out),
        ) || emitted(w, at, msg, msg_ident, target, out) by {
        if emitted(w, at, msg, msg_ident, target, out) {
            let last = effects.len() - 1;
            assert(posts(w.n, effects[last], (target, out)));
        }
    }
}

/// The ranks of `n` processes.
pub open spec fn ranks(n: usize) -> Set<u8> {
    Set::new(|q: u8| is_rank(n, q))
}

/// There are as many ranks as processes.
proof fn lemma_ranks(n: usize)
    requires
        n <= 255,
    ensures
        ranks(n).finite(),
        ranks(n).len() == n,
    decreases n,
{
    if n == 0 {
        assert(ranks(n) =~= Set::<u8>::empty());
    } else {
        lemma_ranks((n - 1) as usize);
        assert(ranks(n) =~= ranks((n - 1) as usize).insert(n as u8));
    }
}

/// What a delivery at one process keeps of the others, and of what is
/// already there: the disk of the process is not earlier than before, the
/// operations that had started, chosen or completed are as they were, and
/// new ones come on top.
pub open spec fn grows(w: Cluster, v: Cluster, at: u8) -> bool {
    &&& v.n == w.n
    &&& v.floor == w.floor
    &&& v.serving == w.serving
    &&& v.rids == w.rids
    &&& v.registers == w.registers.insert(at, v.registers[at])
    &&& forall|x: Place| #[trigger]
        w.disks.dom().contains(x) ==> v.disks.dom().contains(x) && at_least(
            v.disks[x].stamp,
            w.disks[x].stamp,
        ) && (x.0 != at ==> v.disks[x] == w.disks[x])
    &&& forall|op: Op| #[trigger]
        w.chosen.dom().contains(op) ==> v.chosen.dom().contains(op) && v.chosen[op] == w.chosen[op]
    &&& forall|op: Op| #[trigger]
        v.chosen.dom().contains(op) ==> w.chosen.dom().contains(op) || op.0 == at
    &&& forall|s: u64, st: Stamp| #[trigger]
        w.complete.contains((s, st)) ==> v.complete.contains((s, st)) && v.holders[(s, st)]
            == w.holders[(s, st)]
}

/// What was well of the operations and of the messages that were there
/// stays well when the cluster grows, but for the new operations.
proof fn lemma_grows_keeps_old(w: Cluster, v: Cluster, at: u8)
    requires
        cluster_ok(w),
        is_rank(w.n, at),
        grows(w, v, at),
    ensures
        forall|target: usize, msg: SystemCommandView| #[trigger]
            w.sent.contains((target, msg)) ==> message_ok(v, target, msg),
        forall|op: Op| #[trigger]
            w.floor.dom().contains(op) ==> is_rank(v.n, op.0) && op.1 <= v.rids[op.0],
        forall|op: Op, st: Stamp|
            w.floor.dom().contains(op) && #[trigger] v.floor[op].contains(st)
                ==> v.complete.contains((v.serving[op], st)),
        forall|op: Op| #[trigger]
            w.chosen.dom().contains(op) ==> is_rank(v.n, op.0) && op.1 <= v.rids[op.0]
                && v.floor.dom().contains(op),
        forall|op: Op, st: Stamp|
            w.chosen.dom().contains(op) && #[trigger] floor_of(v.floor, op).contains(st)
                ==> at_least(#[trigger] v.chosen[op], st),
        forall|s: u64, st: Stamp| #[trigger] w.complete.contains((s, st)) ==> holders_ok(v, s, st),
        forall|p: u8|
            is_rank(w.n, p) && p != at ==> #[trigger] register_ok(v, p) && v.registers[p]
                == w.registers[p],
        forall|q: u8, s: u64| is_rank(w.n, q) && q != at ==> #[trigger] knows(v, q, s),
{
    assert(shape_ok(w));
    assert forall|q: u8, s: u64| is_rank(w.n, q) && q != at implies #[trigger] knows(v, q, s) by {
        assert(knows(w, q, s));
    }
    assert forall|s: u64, st: Stamp| #[trigger] w.complete.contains((s, st)) implies holders_ok(
        v,
        s,
        st,
    ) by {
        assert(holders_ok(w, s, st));
        assert forall|q: u8| #[trigger] v.holders[(s, st)].contains(q) implies is_rank(v.n, q)
            && at_least(v.disks[(q, s)].stamp, st) by {
            assert(w.holders[(s, st)].contains(q));
            assert(knows(w, q, s));
        }
    }
    assert forall|target: usize, msg: SystemCommandView| #[trigger]
        w.sent.contains((target, msg)) implies message_ok(v, target, msg) by {
        assert(message_ok(w, target, msg));
        let q = msg.header.process_identifier;
        let r = msg.header.read_ident;
        let s = msg.header.sector_idx;
        assert(knows(w, q, s));
        match msg.content {
            SystemContentView::Value { timestamp, write_rank, .. } => {
                assert forall|st: Stamp| #[trigger]
                    floor_of(v.floor, (target as u8, r)).contains(st) && v.holders[(
                        s,
                        st,
                    )].contains(q) implies at_least((timestamp, write_rank), st) by {
                    assert(w.floor[(target as u8, r)].contains(st));
                    assert(w.complete.contains((s, st)));
                }
            },
            _ => {},
        }
    }
    assert forall|op: Op, st: Stamp|
        w.chosen.dom().contains(op) && #[trigger] floor_of(v.floor, op).contains(st) implies at_least(
        #[trigger] v.chosen[op],
        st,
    ) by {
        assert(floor_of(w.floor, op).contains(st));
    }
    assert forall|op: Op, st: Stamp|
        w.floor.dom().contains(op) && #[trigger] v.floor[op].contains(
            st,
        ) implies v.complete.contains((v.serving[op], st)) by {
        assert(w.floor[op].contains(st));
    }
    assert forall|p: u8| is_rank(w.n, p) && p != at implies #[trigger] register_ok(v, p)
        && v.registers[p] == w.registers[p] by {
        assert(register_ok(w, p));
        let m = w.registers[p];
        let op = (p, m.rid);
        let s = w.serving[op];
        assert forall|q: u8, st: Stamp|
            m.readlist.dom().contains(q) && #[trigger] floor_of(v.floor, op).contains(st)
                && #[trigger] v.holders[(s, st)].contains(q) implies at_least(
            (m.readlist[q].0, m.readlist[q].1),
            st,
        ) by {
            assert(w.floor[op].contains(st));
            assert(w.complete.contains((s, st)));
        }
        if m.write_phase {
            assert forall|q: u8| #[trigger] m.acklist.contains(q) implies at_least(
                v.disks[(q, s)].stamp,
                v.chosen[op],
            ) by {
                assert(knows(w, q, s));
            }
        }
    }
}

/// After a delivery at a process, its register knows of every sector what
/// its disk holds.
proof fn lemma_still_knows(w: Cluster, at: u8, msg: SystemCommandView, msg_ident: u128)
    requires
        cluster_ok(w),
        is_rank(w.n, at),
        w.sent.contains((at as usize, msg)),
    ensures
        forall|s: u64| #[trigger] knows(after_deliver(w, at, msg, msg_ident), at, s),
{
    let v = after_deliver(w, at, msg, msg_ident);
    let here = msg.header.sector_idx;
    assert(shape_ok(w));
    assert(knows(w, at, here));
    let outcome = system_outcome(
        w.registers[at],
        msg,
        Some(w.disks[(at, here)].data),
        msg_ident,
    );
    if outcome.1 is Ok {
        lemma_deliver_effects(w, at, msg, msg_ident);
    }
    assert forall|s: u64| #[trigger] knows(v, at, s) by {
        assert(knows(w, at, s));
    }
}

/// A `ReadProc` or a `WriteProc` that is delivered keeps a cluster well.
proof fn lemma_asked_keeps_ok(w: Cluster, at: u8, msg: SystemCommandView, msg_ident: u128)
    requires
        cluster_ok(w),
        is_rank(w.n, at),
        w.sent.contains((at as usize, msg)),
        msg.content is ReadProc || msg.content is WriteProc,
    ensures
        cluster_ok(after_deliver(w, at, msg, msg_ident)),
{
    let v = after_deliver(w, at, msg, msg_ident);
    let m = w.registers[at];
    let s = msg.header.sector_idx;
    let disk = w.disks[(at, s)];
    let outcome = system_outcome(m, msg, Some(disk.data), msg_ident);
    let q = msg.header.process_identifier;
    let r = msg.header.read_ident;
    assert(message_ok(w, at as usize, msg));
    assert(register_ok(w, at));
    assert(shape_ok(w));
    assert(knows(w, at, s));
    assert(outcome.1 is Ok);
    lemma_deliver_effects(w, at, msg, msg_ident);
    lemma_still_knows(w, at, msg, msg_ident);
    assert(grows(w, v, at)) by {
        assert(v.registers =~= w.registers.insert(at, v.registers[at]));
    }
    lemma_grows_keeps_old(w, v, at);
    assert(shape_ok(v)) by {
        assert forall|p: u8| #[trigger] is_rank(v.n, p) implies v.registers.dom().contains(p)
            && v.rids.dom().contains(p) && v.registers[p].rid == v.rids[p] by {
            assert(is_rank(w.n, p));
        }
    }
    assert(register_ok(v, at)) by {
        let n = v.registers[at];
        let op = (at, n.rid);
        let sector = v.serving[op];
        assert forall|p: u8, st: Stamp|
            n.readlist.dom().contains(p) && #[trigger] floor_of(v.floor, op).contains(st)
                && #[trigger] v.holders[(sector, st)].contains(p) implies at_least(
            (n.readlist[p].0, n.readlist[p].1),
            st,
        ) by {
            assert(w.floor[op].contains(st));
            assert(w.complete.contains((sector, st)));
        }
        if n.write_phase {
            assert forall|p: u8| #[trigger] n.acklist.contains(p) implies at_least(
                v.disks[(p, sector)].stamp,
                v.chosen[op],
            ) by {
                assert(knows(w, p, sector));
            }
        }
    }
    assert forall|target: usize, out: SystemCommandView| #[trigger]
        v.sent.contains((target, out)) implies message_ok(v, target, out) by {
        if !w.sent.contains((target, out)) {
            assert(emitted(w, at, msg, msg_ident, target, out));
            assert(target as u8 == q);
            if msg.content is ReadProc {
                assert forall|st: Stamp| #[trigger]
                    floor_of(v.floor, (q, r)).contains(st) && v.holders[(s, st)].contains(
                        at,
                    ) implies at_least(v.disks[(at, s)].stamp, st) by {
                    assert(w.floor[(q, r)].contains(st));
                    assert(w.complete.contains((s, st)));
                    assert(holders_ok(v, s, st));
                }
            }
        }
    }
    assert(history_ok(v)) by {
        assert forall|sector: u64, st: Stamp| #[trigger]
            v.complete.contains((sector, st)) implies v.holders.dom().contains((sector, st))
            && holders_ok(v, sector, st) by {
            assert(w.complete.contains((sector, st)));
        }
    }
}

/// An `Ack` that is delivered keeps a cluster well.
proof fn lemma_ack_keeps_ok(w: Cluster, at: u8, msg: SystemCommandView, msg_ident: u128)
    requires
        cluster_ok(w),
        is_rank(w.n, at),
        w.sent.contains((at as usize, msg)),
        msg.content is Ack,
    ensures
        cluster_ok(after_deliver(w, at, msg, msg_ident)),
{
    let v = after_deliver(w, at, msg, msg_ident);
    let m = w.registers[at];
    let s = msg.header.sector_idx;
    let disk = w.disks[(at, s)];
    let outcome = system_outcome(m, msg, Some(disk.data), msg_ident);
    let q = msg.header.process_identifier;
    let op = (at, m.rid);
    assert(message_ok(w, at as usize, msg));
    assert(register_ok(w, at));
    assert(shape_ok(w));
    assert(knows(w, at, s));
    assert(outcome.1 is Ok);
    lemma_deliver_effects(w, at, msg, msg_ident);
    lemma_still_knows(w, at, msg, msg_ident);
    let effects = outcome.1->Ok_0;
    assert(v.sent =~= w.sent) by {
        assert forall|target: usize, out: SystemCommandView|
            v.sent.contains((target, out)) <==> w.sent.contains((target, out)) by {
            assert(!emitted(w, at, msg, msg_ident, target, out));
        }
    }
    assert(v.disks =~= w.disks);
    assert(grows(w, v, at)) by {
        assert(v.registers =~= w.registers.insert(at, v.registers[at]));
    }
    lemma_grows_keeps_old(w, v, at);
    assert(shape_ok(v)) by {
        assert forall|p: u8| #[trigger] is_rank(v.n, p) implies v.registers.dom().contains(p)
            && v.rids.dom().contains(p) && v.registers[p].rid == v.rids[p] by {
            assert(is_rank(w.n, p));
        }
    }
    assert(register_ok(v, at)) by {
        let n = v.registers[at];
        let sector = v.serving[op];
        assert forall|p: u8, st: Stamp|
            n.readlist.dom().contains(p) && #[trigger] floor_of(v.floor, op).contains(st)
                && #[trigger] v.holders[(sector, st)].contains(p) implies at_least(
            (n.readlist[p].0, n.readlist[p].1),
            st,
        ) by {
            assert(w.floor[op].contains(st));
            assert(w.complete.contains((sector, st)));
        }
    }
    assert(history_ok(v)) by {
        assert forall|sector: u64, st: Stamp| #[trigger]
            v.complete.contains((sector, st)) implies v.holders.dom().contains((sector, st))
            && holders_ok(v, sector, st) by {
            if !w.complete.contains((sector, st)) {
                let acks = m.acklist.insert(q);
                assert(v.holders[(sector, st)] == acks);
                assert(2 * acks.len() > w.n);
            }
        }
        assert forall|o: Op, st: Stamp|
            v.floor.dom().contains(o) && #[trigger] v.floor[o].contains(
                st,
            ) implies v.complete.contains((v.serving[o], st)) by {
            assert(w.floor[o].contains(st));
        }
    }
}

/// The answers of a read phase tell of every operation on the sector that
/// was complete when the operation started: each answer of a process that
/// had acknowledged such an operation is not earlier than it, and so the
/// latest of the answers of a majority is not earlier than any of them.
proof fn lemma_answers_tell(w: Cluster, at: u8, msg: SystemCommandView, st: Stamp)
    requires
        cluster_ok(w),
        is_rank(w.n, at),
        w.sent.contains((at as usize, msg)),
        msg.content is Value,
        msg.header.read_ident == w.registers[at].rid,
        floor_of(w.floor, (at, w.registers[at].rid)).contains(st),
    ensures
        ({
            let s = msg.header.sector_idx;
            let heard = all_answers(w.registers[at], msg, w.disks[(at, s)].data);
            &&& w.serving[(at, w.registers[at].rid)] == s
            &&& forall|p: u8|
                heard.dom().contains(p) && #[trigger] w.holders[(s, st)].contains(p) ==> at_least(
                    (heard[p].0, heard[p].1),
                    st,
                )
            &&& forall|p: u8| heard.dom().contains(p) ==> #[trigger] is_rank(w.n, p)
            &&& heard.dom().finite()
            &&& majority(
                w.registers[at].readlist.dom().insert(msg.header.process_identifier).len(),
                w.n,
            ) ==> at_least((latest(heard).0, latest(heard).1), st)
        }),
{
    let m = w.registers[at];
    let s = msg.header.sector_idx;
    let disk = w.disks[(at, s)];
    let q = msg.header.process_identifier;
    let op = (at, m.rid);
    let heard = all_answers(m, msg, disk.data);
    assert(message_ok(w, at as usize, msg));
    assert(register_ok(w, at));
    assert(shape_ok(w));
    assert(knows(w, at, s));
    assert(w.floor[op].contains(st));
    assert(w.complete.contains((s, st)));
    assert(holders_ok(w, s, st));
    assert forall|p: u8| heard.dom().contains(p) && #[trigger] w.holders[(s, st)].contains(
        p,
    ) implies at_least((heard[p].0, heard[p].1), st) by {
        if p == at {
        } else if p == q {
        } else {
            assert(m.readlist.dom().contains(p));
        }
    }
    assert forall|p: u8| heard.dom().contains(p) implies #[trigger] is_rank(w.n, p) by {
        if p != at && p != q {
            assert(m.readlist.dom().contains(p));
        }
    }
    let noted = m.readlist.dom().insert(q);
    assert(heard.dom() =~= noted.insert(at));
    if majority(noted.len(), w.n) {
        lemma_ranks(w.n);
        assert(heard.dom().subset_of(ranks(w.n)));
        assert(w.holders[(s, st)].subset_of(ranks(w.n))) by {
            assert forall|p: u8| w.holders[(s, st)].contains(p) implies ranks(w.n).contains(
                p,
            ) by {}
        }
        lemma_read_sees_complete_write(w.holders[(s, st)], heard, ranks(w.n), st.0, st.1);
    }
}

/// A `Value` that is delivered keeps a cluster well.
proof fn lemma_value_keeps_ok(w: Cluster, at: u8, msg: SystemCommandView, msg_ident: u128)
    requires
        cluster_ok(w),
        is_rank(w.n, at),
        w.sent.contains((at as usize, msg)),
        msg.content is Value,
    ensures
        cluster_ok(after_deliver(w, at, msg, msg_ident)),
{
    let v = after_deliver(w, at, msg, msg_ident);
    let m = w.registers[at];
    let s = msg.header.sector_idx;
    let disk = w.disks[(at, s)];
    let outcome = system_outcome(m, msg, Some(disk.data), msg_ident);
    let q = msg.header.process_identifier;
    let op = (at, m.rid);
    let n = v.registers[at];
    assert(message_ok(w, at as usize, msg));
    assert(register_ok(w, at));
    assert(shape_ok(w));
    assert(knows(w, at, s));
    if outcome.1 is Ok {
        lemma_deliver_effects(w, at, msg, msg_ident);
    }
    lemma_still_knows(w, at, msg, msg_ident);
    assert(grows(w, v, at)) by {
        assert(v.registers =~= w.registers.insert(at, v.registers[at]));
        if !(outcome.1 is Ok) {
            assert(v.disks =~= w.disks);
        }
    }
    lemma_grows_keeps_old(w, v, at);
    assert forall|st: Stamp| floor_of(w.floor, op).contains(st) && msg.header.read_ident
        == m.rid implies w.serving[op] == s && (forall|p: u8|
        all_answers(m, msg, disk.data).dom().contains(p) && #[trigger] w.holders[(s, st)].contains(
            p,
        ) ==> at_least(
            (all_answers(m, msg, disk.data)[p].0, all_answers(m, msg, disk.data)[p].1),
            st,
        )) && (ends_read_phase(m, msg.header) ==> at_least(
        (latest(all_answers(m, msg, disk.data)).0, latest(all_answers(m, msg, disk.data)).1),
        st,
    )) by {
        lemma_answers_tell(w, at, msg, st);
    }
    assert(all_answers(m, msg, disk.data).dom() =~= m.readlist.dom().insert(q).insert(at));
    assert(shape_ok(v)) by {
        assert forall|p: u8| #[trigger] is_rank(v.n, p) implies v.registers.dom().contains(p)
            && v.rids.dom().contains(p) && v.registers[p].rid == v.rids[p] by {
            assert(is_rank(w.n, p));
        }
        assert forall|p: u8| n.readlist.dom().contains(p) implies #[trigger] is_rank(v.n, p) by {
            if p != at && p != q {
                assert(m.readlist.dom().contains(p));
            }
        }
    }
    assert(register_ok(v, at)) by {
        let sector = v.serving[(at, n.rid)];
        assert forall|p: u8, st: Stamp|
            n.readlist.dom().contains(p) && #[trigger] floor_of(v.floor, (at, n.rid)).contains(st)
                && #[trigger] v.holders[(sector, st)].contains(p) implies at_least(
            (n.readlist[p].0, n.readlist[p].1),
            st,
        ) by {
            assert(w.floor[op].contains(st));
            assert(w.complete.contains((sector, st)));
            assert(w.holders[(sector, st)].contains(p));
            if n.readlist != m.readlist {
                assert(all_answers(m, msg, disk.data).dom().contains(p));
            }
        }
    }
    assert forall|target: usize, out: SystemCommandView| #[trigger]
        v.sent.contains((target, out)) implies message_ok(v, target, out) by {
        if !w.sent.contains((target, out)) {
            assert(outcome.1 is Ok);
            assert(emitted(w, at, msg, msg_ident, target, out));
        }
    }
    assert(history_ok(v)) by {
        assert forall|sector: u64, st: Stamp| #[trigger]
            v.complete.contains((sector, st)) implies v.holders.dom().contains((sector, st))
            && holders_ok(v, sector, st) by {
            assert(w.complete.contains((sector, st)));
        }
        assert forall|o: Op, st: Stamp|
            v.chosen.dom().contains(o) && #[trigger] floor_of(v.floor, o).contains(
                st,
            ) implies at_least(#[trigger] v.chosen[o], st) by {
            if !w.chosen.dom().contains(o) {
                assert(o == op);
                assert(floor_of(w.floor, op).contains(st));
            }
        }
    }
}

/// A message that is delivered keeps a cluster well.
pub proof fn lemma_deliver_keeps_ok(w: Cluster, at: u8, msg: SystemCommandView, msg_ident: u128)
    requires
        cluster_ok(w),
    ensures
        cluster_ok(after_deliver(w, at, msg, msg_ident)),
{
    if is_rank(w.n, at) && w.sent.contains((at as usize, msg)) {
        match msg.content {
            SystemContentView::ReadProc => lemma_asked_keeps_ok(w, at, msg, msg_ident),
            SystemContentView::WriteProc { .. } => lemma_asked_keeps_ok(w, at, msg, msg_ident),
            SystemContentView::Ack => lemma_ack_keeps_ok(w, at, msg, msg_ident),
            SystemContentView::Value { .. } => lemma_value_keeps_ok(w, at, msg, msg_ident),
        }
    }
}

/// Whatever happens, in whatever order, a cluster stays well.
pub proof fn lemma_cluster_stays_ok(w: Cluster, events: Seq<ClusterEvent>)
    requires
        cluster_ok(w),
    ensures
        cluster_ok(after_all(w, events)),
    decreases events.len(),
{
    if events.len() > 0 {
        lemma_cluster_stays_ok(w, events.drop_last());
        let before = after_all(w, events.drop_last());
        match events.last() {
            ClusterEvent::Client { at, cmd, msg_ident } => lemma_client_keeps_ok(
                before,
                at,
                cmd,
                msg_ident,
            ),
            ClusterEvent::Deliver { at, msg, msg_ident } => lemma_deliver_keeps_ok(
                before,
                at,
                msg,
                msg_ident,
            ),
            ClusterEvent::Restart { at } => lemma_restart_keeps_ok(before, at),
        }
    }
}

/// The data `data` is what stands under `stamp` on the sector: zeros under
/// the stamp of a sector that was never written, and under any other stamp
/// the data of the write that chose it.
pub open spec fn valued(
    written: Map<(u64, Stamp), Seq<u8>>,
    sector: u64,
    stamp: Stamp,
    data: Seq<u8>,
) -> bool {
    if stamp == (0u64, 0u8) {
        data == zero_sector()
    } else {
        written.dom().contains((sector, stamp)) && written[(sector, stamp)] == data
    }
}

/// The data that a message carries is what stands under its stamp on its
/// sector.
pub open spec fn message_valued(written: Map<(u64, Stamp), Seq<u8>>, msg: SystemCommandView)
    -> bool {
    match msg.content {
        SystemContentView::Value { timestamp, write_rank, sector_data } => valued(
            written,
            msg.header.sector_idx,
            (timestamp, write_rank),
            sector_data,
        ),
        SystemContentView::WriteProc { timestamp, write_rank, data_to_write } => valued(
            written,
            msg.header.sector_idx,
            (timestamp, write_rank),
            data_to_write,
        ),
        _ => true,
    }
}

/// Every answer that a register has noted, and the value that a read has
/// chosen, is what stands under its stamp on the sector of the operation.
pub open spec fn register_valued(w: Cluster, p: u8) -> bool {
    let m = w.registers[p];
    let s = w.serving[(p, m.rid)];
    &&& forall|q: u8| #[trigger]
        m.readlist.dom().contains(q) ==> valued(
            w.written,
            s,
            (m.readlist[q].0, m.readlist[q].1),
            m.readlist[q].2,
        )
    &&& m.write_phase && m.reading ==> valued(w.written, s, w.chosen[(p, m.rid)], m.readval)
}

/// What the disk of the process `q` holds for the sector `s` is what stands
/// under its stamp.
pub open spec fn disk_valued(w: Cluster, q: u8, s: u64) -> bool {
    valued(w.written, s, w.disks[(q, s)].stamp, w.disks[(q, s)].data)
}

/// What holds of the data in a cluster whatever has happened: under one
/// stamp on one sector stands one sector of data, wherever it is; a write
/// has chosen a stamp of its own, with the rank of its process, which the
/// disk of that process has reached; a read has answered with what stands
/// under its stamp.
pub open spec fn values_ok(w: Cluster) -> bool {
    &&& forall|q: u8, s: u64| is_rank(w.n, q) ==> #[trigger] disk_valued(w, q, s)
    &&& forall|q: u8| #[trigger] is_rank(w.n, q) ==> register_valued(w, q)
    &&& forall|target: usize, msg: SystemCommandView| #[trigger]
        w.sent.contains((target, msg)) ==> message_valued(w.written, msg)
    &&& forall|s: u64, st: Stamp| #[trigger]
        w.written.dom().contains((s, st)) ==> st.0 >= 1 && is_rank(w.n, st.1) && at_least(
            w.disks[(st.1, s)].stamp,
            st,
        )
    &&& forall|op: Op| #[trigger]
        w.answered.dom().contains(op) ==> w.chosen.dom().contains(op) && valued(
            w.written,
            w.serving[op],
            w.chosen[op],
            w.answered[op],
        )
    &&& forall|op: Op| #[trigger]
        w.wrote.contains(op) ==> w.chosen.dom().contains(op) && w.written.dom().contains(
            (w.serving[op], w.chosen[op]),
        ) && w.chosen[op].1 == op.0
    &&& forall|a: Op, b: Op|
        #[trigger] w.wrote.contains(a) && #[trigger] w.wrote.contains(b) && a != b
            && w.serving[a] == w.serving[b] ==> w.chosen[a] != w.chosen[b]
    &&& forall|op: Op, st: Stamp|
        #[trigger] w.wrote.contains(op) && #[trigger] floor_of(w.floor, op).contains(st) ==> later(
            w.chosen[op].0,
            w.chosen[op].1,
            st.0,
            st.1,
        )
}

/// The data of a cluster starts well.
pub proof fn lemma_initial_values_ok(n: usize)
    ensures
        values_ok(initial_cluster(n)),
{
}

/// A restart keeps the data of a cluster well.
proof fn lemma_restart_keeps_values(w: Cluster, at: u8)
    requires
        cluster_ok(w),
        values_ok(w),
    ensures
        values_ok(after_restart(w, at)),
{
    let v = after_restart(w, at);
    if is_rank(w.n, at) {
        assert forall|q: u8, s: u64| is_rank(v.n, q) implies #[trigger] disk_valued(v, q, s) by {
            assert(disk_valued(w, q, s));
        }
        assert forall|q: u8| #[trigger] is_rank(v.n, q) implies register_valued(v, q) by {
            assert(is_rank(w.n, q));
            assert(register_valued(w, q));
        }
    }
}

/// A client's command keeps the data of a cluster well.
proof fn lemma_client_keeps_values(w: Cluster, at: u8, cmd: ClientCommandView, msg_ident: u128)
    requires
        cluster_ok(w),
        values_ok(w),
    ensures
        values_ok(after_client(w, at, cmd, msg_ident)),
{
    let v = after_client(w, at, cmd, msg_ident);
    let m = w.registers[at];
    if is_rank(w.n, at) && !m.pending && client_outcome(m, cmd, msg_ident).1 is Ok {
        lemma_client_effects(w, at, cmd, msg_ident);
        let started = (at, client_outcome(m, cmd, msg_ident).0.rid);
        assert(shape_ok(w));
        assert(!w.floor.dom().contains(started));
        assert(!w.chosen.dom().contains(started));
        assert forall|q: u8, s: u64| is_rank(v.n, q) implies #[trigger] disk_valued(v, q, s) by {
            assert(disk_valued(w, q, s));
        }
        assert forall|q: u8| #[trigger] is_rank(v.n, q) implies register_valued(v, q) by {
            assert(is_rank(w.n, q));
            assert(register_valued(w, q));
            assert(register_ok(w, q));
            let mq = w.registers[q];
            if q != at {
                if mq.write_phase && mq.reading {
                    assert(w.chosen.dom().contains((q, mq.rid)));
                }
                assert forall|x: u8| #[trigger] mq.readlist.dom().contains(x) implies valued(
                    v.written,
                    v.serving[(q, mq.rid)],
                    (mq.readlist[x].0, mq.readlist[x].1),
                    mq.readlist[x].2,
                ) by {
                    assert(mq.rid <= w.rids[q]);
                }
            }
        }
        assert forall|target: usize, msg: SystemCommandView| #[trigger]
            v.sent.contains((target, msg)) implies message_valued(v.written, msg) by {
            if w.sent.contains((target, msg)) {
                assert(message_valued(w.written, msg));
            }
        }
        assert forall|s: u64, st: Stamp| #[trigger] v.written.dom().contains((s, st)) implies st.0
            >= 1 && is_rank(v.n, st.1) && at_least(v.disks[(st.1, s)].stamp, st) by {
            assert(w.written.dom().contains((s, st)));
        }
        assert forall|op: Op| #[trigger] v.answered.dom().contains(op) implies v.chosen.dom().contains(
            op,
        ) && valued(v.written, v.serving[op], v.chosen[op], v.answered[op]) by {
            assert(w.chosen.dom().contains(op));
        }
        assert forall|op: Op| #[trigger] v.wrote.contains(op) implies v.chosen.dom().contains(op)
            && v.written.dom().contains((v.serving[op], v.chosen[op])) && v.chosen[op].1
            == op.0 by {
            assert(w.chosen.dom().contains(op));
        }
        assert forall|a: Op, b: Op|
            #[trigger] v.wrote.contains(a) && #[trigger] v.wrote.contains(b) && a != b
                && v.serving[a] == v.serving[b] implies v.chosen[a] != v.chosen[b] by {
            assert(w.chosen.dom().contains(a));
            assert(w.chosen.dom().contains(b));
        }
        assert forall|op: Op, st: Stamp|
            #[trigger] v.wrote.contains(op) && #[trigger] floor_of(v.floor, op).contains(
                st,
            ) implies later(v.chosen[op].0, v.chosen[op].1, st.0, st.1) by {
            assert(w.chosen.dom().contains(op));
            assert(floor_of(w.floor, op).contains(st));
        }
    }
}

/// What was well of the data that was there stays well when the cluster
/// grows and the stamps that stood for data still stand for it.
proof fn lemma_grows_keeps_values(w: Cluster, v: Cluster, at: u8)
    requires
        cluster_ok(w),
        values_ok(w),
        is_rank(w.n, at),
        grows(w, v, at),
        forall|s: u64, st: Stamp| #[trigger]
            w.written.dom().contains((s, st)) ==> v.written.dom().contains((s, st))
                && v.written[(s, st)] == w.written[(s, st)],
    ensures
        forall|s: u64, st: Stamp, data: Seq<u8>| #[trigger]
            valued(w.written, s, st, data) ==> valued(v.written, s, st, data),
        forall|p: u8, s: u64| is_rank(w.n, p) && p != at ==> #[trigger] disk_valued(v, p, s),
        forall|p: u8| is_rank(w.n, p) && p != at ==> #[trigger] register_valued(v, p),
        forall|target: usize, msg: SystemCommandView| #[trigger]
            w.sent.contains((target, msg)) ==> message_valued(v.written, msg),
        forall|s: u64, st: Stamp| #[trigger]
            w.written.dom().contains((s, st)) ==> st.0 >= 1 && is_rank(v.n, st.1) && at_least(
                v.disks[(st.1, s)].stamp,
                st,
            ),
        forall|op: Op| #[trigger]
            w.answered.dom().contains(op) ==> v.chosen.dom().contains(op) && valued(
                v.written,
                v.serving[op],
                v.chosen[op],
                w.answered[op],
            ),
        forall|op: Op| #[trigger]
            w.wrote.contains(op) ==> v.chosen.dom().contains(op) && v.written.dom().contains(
                (v.serving[op], v.chosen[op]),
            ) && v.chosen[op].1 == op.0,
        forall|a: Op, b: Op|
            #[trigger] w.wrote.contains(a) && #[trigger] w.wrote.contains(b) && a != b
                && v.serving[a] == v.serving[b] ==> v.chosen[a] != v.chosen[b],
        forall|op: Op, st: Stamp|
            #[trigger] w.wrote.contains(op) && #[trigger] floor_of(v.floor, op).contains(st)
                ==> later(v.chosen[op].0, v.chosen[op].1, st.0, st.1),
{
    assert(shape_ok(w));
    assert forall|op: Op, st: Stamp|
        #[trigger] w.wrote.contains(op) && #[trigger] floor_of(v.floor, op).contains(
            st,
        ) implies later(v.chosen[op].0, v.chosen[op].1, st.0, st.1) by {
        assert(w.chosen.dom().contains(op));
        assert(floor_of(w.floor, op).contains(st));
    }
    assert forall|p: u8, s: u64| is_rank(w.n, p) && p != at implies #[trigger] disk_valued(
        v,
        p,
        s,
    ) by {
        assert(disk_valued(w, p, s));
        assert(knows(w, p, s));
    }
    assert forall|p: u8| is_rank(w.n, p) && p != at implies #[trigger] register_valued(v, p) by {
        assert(register_valued(w, p));
        assert(register_ok(w, p));
        let mp = w.registers[p];
        assert(v.registers[p] == mp);
        if mp.write_phase && mp.reading {
            assert(w.chosen.dom().contains((p, mp.rid)));
        }
    }
    assert forall|target: usize, msg: SystemCommandView| #[trigger]
        w.sent.contains((target, msg)) implies message_valued(v.written, msg) by {
        assert(message_valued(w.written, msg));
    }
    assert forall|s: u64, st: Stamp| #[trigger] w.written.dom().contains((s, st)) implies st.0
        >= 1 && is_rank(v.n, st.1) && at_least(v.disks[(st.1, s)].stamp, st) by {
        assert(at_least(w.disks[(st.1, s)].stamp, st));
        assert(knows(w, st.1, s));
    }
    assert forall|op: Op| #[trigger] w.answered.dom().contains(op) implies v.chosen.dom().contains(
        op,
    ) && valued(v.written, v.serving[op], v.chosen[op], w.answered[op]) by {
        assert(w.chosen.dom().contains(op));
    }
    assert forall|op: Op| #[trigger] w.wrote.contains(op) implies v.chosen.dom().contains(op)
        && v.written.dom().contains((v.serving[op], v.chosen[op])) && v.chosen[op].1 == op.0 by {
        assert(w.chosen.dom().contains(op));
    }
    assert forall|a: Op, b: Op|
        #[trigger] w.wrote.contains(a) && #[trigger] w.wrote.contains(b) && a != b && v.serving[a]
            == v.serving[b] implies v.chosen[a] != v.chosen[b] by {
        assert(w.chosen.dom().contains(a));
        assert(w.chosen.dom().contains(b));
    }
}

/// A `ReadProc`, a `WriteProc` or an `Ack` that is delivered keeps the data
/// of a cluster well.
proof fn lemma_plain_keeps_values(w: Cluster, at: u8, msg: SystemCommandView, msg_ident: u128)
    requires
        cluster_ok(w),
        values_ok(w),
        is_rank(w.n, at),
        w.sent.contains((at as usize, msg)),
        !(msg.content is Value),
    ensures
        values_ok(after_deliver(w, at, msg, msg_ident)),
{
    let v = after_deliver(w, at, msg, msg_ident);
    let m = w.registers[at];
    let s = msg.header.sector_idx;
    let disk = w.disks[(at, s)];
    let outcome = system_outcome(m, msg, Some(disk.data), msg_ident);
    let op = (at, m.rid);
    assert(message_ok(w, at as usize, msg));
    assert(message_valued(w.written, msg));
    assert(register_ok(w, at));
    assert(register_valued(w, at));
    assert(shape_ok(w));
    assert(knows(w, at, s));
    assert(disk_valued(w, at, s));
    assert(outcome.1 is Ok);
    lemma_deliver_effects(w, at, msg, msg_ident);
    lemma_still_knows(w, at, msg, msg_ident);
    assert(grows(w, v, at)) by {
        assert(v.registers =~= w.registers.insert(at, v.registers[at]));
        if msg.content is Ack {
            assert(v.disks =~= w.disks);
        }
    }
    lemma_grows_keeps_values(w, v, at);
    assert(register_valued(v, at)) by {
        let n = v.registers[at];
        assert forall|x: u8| #[trigger] n.readlist.dom().contains(x) implies valued(
            v.written,
            v.serving[(at, n.rid)],
            (n.readlist[x].0, n.readlist[x].1),
            n.readlist[x].2,
        ) by {
            assert(m.readlist.dom().contains(x));
        }
    }
    assert forall|target: usize, out: SystemCommandView| #[trigger]
        v.sent.contains((target, out)) implies message_valued(v.written, out) by {
        if !w.sent.contains((target, out)) {
            assert(emitted(w, at, msg, msg_ident, target, out));
        }
    }
    assert forall|o: Op| #[trigger] v.answered.dom().contains(o) implies v.chosen.dom().contains(
        o,
    ) && valued(v.written, v.serving[o], v.chosen[o], v.answered[o]) by {
        if w.answered.dom().contains(o) {
            assert(v.answered[o] == w.answered[o]) by {
                if o == op {
                    assert(w.chosen.dom().contains(op));
                }
            }
        }
    }
    assert forall|q: u8, sector: u64| is_rank(v.n, q) implies #[trigger] disk_valued(
        v,
        q,
        sector,
    ) by {
        if q == at {
            assert(disk_valued(w, at, sector));
        }
    }
    assert forall|q: u8| #[trigger] is_rank(v.n, q) implies register_valued(v, q) by {
        assert(is_rank(w.n, q));
    }
}

/// The latest of the answers of a read phase is what stands under its
/// stamp, and so is every answer; the stamp that a write chooses stands for
/// no data yet.
proof fn lemma_answers_valued(w: Cluster, at: u8, msg: SystemCommandView)
    requires
        cluster_ok(w),
        values_ok(w),
        is_rank(w.n, at),
        w.sent.contains((at as usize, msg)),
        msg.content is Value,
        msg.header.read_ident == w.registers[at].rid,
    ensures
        ({
            let s = msg.header.sector_idx;
            let m = w.registers[at];
            let heard = all_answers(m, msg, w.disks[(at, s)].data);
            &&& w.serving[(at, m.rid)] == s
            &&& forall|p: u8| #[trigger]
                heard.dom().contains(p) ==> valued(
                    w.written,
                    s,
                    (heard[p].0, heard[p].1),
                    heard[p].2,
                )
            &&& valued(w.written, s, (latest(heard).0, latest(heard).1), latest(heard).2)
            &&& !m.reading ==> !w.written.dom().contains(
                (s, imposed_stamp(m, msg, w.disks[(at, s)].data)),
            ) || latest(heard).0 == u64::MAX
        }),
{
    let m = w.registers[at];
    let s = msg.header.sector_idx;
    let disk = w.disks[(at, s)];
    let q = msg.header.process_identifier;
    let heard = all_answers(m, msg, disk.data);
    let top = latest(heard);
    let c = imposed_stamp(m, msg, disk.data);
    assert(message_valued(w.written, msg));
    assert(register_valued(w, at));
    assert(shape_ok(w));
    assert(knows(w, at, s));
    assert(disk_valued(w, at, s));
    assert(message_ok(w, at as usize, msg));
    assert forall|p: u8| #[trigger] heard.dom().contains(p) implies valued(
        w.written,
        s,
        (heard[p].0, heard[p].1),
        heard[p].2,
    ) by {
        if p != at && p != q {
            assert(m.readlist.dom().contains(p));
        }
    }
    lemma_latest_is_latest(heard, at);
    if top != (0u64, 0u8, zero_sector()) {
        let p = choose|p: u8| heard.dom().contains(p) && heard[p] == top;
        assert(valued(w.written, s, (heard[p].0, heard[p].1), heard[p].2));
    }
    if !m.reading && top.0 < u64::MAX && w.written.dom().contains((s, c)) {
        assert(heard.dom().contains(at));
        assert(at_least(w.disks[(c.1, s)].stamp, c));
    }
}

/// A `Value` that is delivered keeps the data of a cluster well.
proof fn lemma_value_keeps_values(w: Cluster, at: u8, msg: SystemCommandView, msg_ident: u128)
    requires
        cluster_ok(w),
        values_ok(w),
        is_rank(w.n, at),
        w.sent.contains((at as usize, msg)),
        msg.content is Value,
    ensures
        values_ok(after_deliver(w, at, msg, msg_ident)),
{
    let v = after_deliver(w, at, msg, msg_ident);
    let m = w.registers[at];
    let s = msg.header.sector_idx;
    let disk = w.disks[(at, s)];
    let outcome = system_outcome(m, msg, Some(disk.data), msg_ident);
    let q = msg.header.process_identifier;
    let op = (at, m.rid);
    let n = v.registers[at];
    let heard = all_answers(m, msg, disk.data);
    assert(message_ok(w, at as usize, msg));
    assert(register_ok(w, at));
    assert(register_valued(w, at));
    assert(shape_ok(w));
    assert(knows(w, at, s));
    assert(disk_valued(w, at, s));
    if msg.header.read_ident == m.rid {
        lemma_answers_valued(w, at, msg);
    }
    if outcome.1 is Ok {
        lemma_deliver_effects(w, at, msg, msg_ident);
    }
    lemma_still_knows(w, at, msg, msg_ident);
    assert(grows(w, v, at)) by {
        assert(v.registers =~= w.registers.insert(at, v.registers[at]));
        if !(outcome.1 is Ok) {
            assert(v.disks =~= w.disks);
        }
    }
    lemma_grows_keeps_values(w, v, at);
    assert(register_valued(v, at)) by {
        assert forall|x: u8| #[trigger] n.readlist.dom().contains(x) implies valued(
            v.written,
            v.serving[(at, n.rid)],
            (n.readlist[x].0, n.readlist[x].1),
            n.readlist[x].2,
        ) by {
            if n.readlist == m.readlist {
                assert(m.readlist.dom().contains(x));
            } else if n.readlist == heard {
                assert(heard.dom().contains(x));
            } else {
                if x != q {
                    assert(m.readlist.dom().contains(x));
                }
            }
        }
    }
    assert forall|target: usize, out: SystemCommandView| #[trigger]
        v.sent.contains((target, out)) implies message_valued(v.written, out) by {
        if !w.sent.contains((target, out)) {
            assert(outcome.1 is Ok);
            assert(emitted(w, at, msg, msg_ident, target, out));
        }
    }
    assert forall|a: Op, b: Op|
        #[trigger] v.wrote.contains(a) && #[trigger] v.wrote.contains(b) && a != b && v.serving[a]
            == v.serving[b] implies v.chosen[a] != v.chosen[b] by {
        if w.wrote.contains(a) {
            assert(w.chosen.dom().contains(a));
            assert(w.written.dom().contains((w.serving[a], w.chosen[a])));
        }
        if w.wrote.contains(b) {
            assert(w.chosen.dom().contains(b));
            assert(w.written.dom().contains((w.serving[b], w.chosen[b])));
        }
    }
    assert forall|o: Op, st: Stamp|
        #[trigger] v.wrote.contains(o) && #[trigger] floor_of(v.floor, o).contains(
            st,
        ) implies later(v.chosen[o].0, v.chosen[o].1, st.0, st.1) by {
        if !w.wrote.contains(o) {
            assert(o == op);
            lemma_answers_tell(w, at, msg, st);
        }
    }
    assert forall|p: u8, sector: u64| is_rank(v.n, p) implies #[trigger] disk_valued(
        v,
        p,
        sector,
    ) by {
        if p == at {
            assert(disk_valued(w, at, sector));
        }
    }
    assert forall|p: u8| #[trigger] is_rank(v.n, p) implies register_valued(v, p) by {
        assert(is_rank(w.n, p));
    }
}

/// A message that is delivered keeps the data of a cluster well.
proof fn lemma_deliver_keeps_values(w: Cluster, at: u8, msg: SystemCommandView, msg_ident: u128)
    requires
        cluster_ok(w),
        values_ok(w),
    ensures
        values_ok(after_deliver(w, at, msg, msg_ident)),
{
    if is_rank(w.n, at) && w.sent.contains((at as usize, msg)) {
        if msg.content is Value {
            lemma_value_keeps_values(w, at, msg, msg_ident);
        } else {
            lemma_plain_keeps_values(w, at, msg, msg_ident);
        }
    }
}

/// Whatever happens, in whatever order, the data of a cluster stays well.
pub proof fn lemma_values_stay_ok(w: Cluster, events: Seq<ClusterEvent>)
    requires
        cluster_ok(w),
        values_ok(w),
    ensures
        cluster_ok(after_all(w, events)),
        values_ok(after_all(w, events)),
    decreases events.len(),
{
    lemma_cluster_stays_ok(w, events);
    if events.len() > 0 {
        lemma_values_stay_ok(w, events.drop_last());
        let before = after_all(w, events.drop_last());
        match events.last() {
            ClusterEvent::Client { at, cmd, msg_ident } => lemma_client_keeps_values(
                before,
                at,
                cmd,
                msg_ident,
            ),
            ClusterEvent::Deliver { at, msg, msg_ident } => lemma_deliver_keeps_values(
                before,
                at,
                msg,
                msg_ident,
            ),
            ClusterEvent::Restart { at } => lemma_restart_keeps_values(before, at),
        }
    }
}

/// The register of the process `q`, where it serves a write, carries the
/// data that the client of that write gave; and where it serves a read,
/// the operation is no write.
pub open spec fn carries(w: Cluster, q: u8) -> bool {
    let m = w.registers[q];
    &&& m.writing ==> w.given.dom().contains((q, m.rid)) && w.given[(q, m.rid)] == m.writeval
    &&& m.reading ==> !w.wrote.contains((q, m.rid))
}

/// What holds of the record of the operations. Of the data that clients
/// gave: a register that serves a write carries it, only operations that
/// have started have any, no operation is a read and a write, under the
/// stamp of a write stands what its client gave, and what stands under a
/// stamp some write has put there. Of the answers that clients have: the
/// stamp of an operation whose client has its answer is complete, and was
/// so when a later operation on the sector started. Of the starts: no two
/// operations started at once, and one whose client had its answer when
/// another started had started before it.
pub open spec fn record_ok(w: Cluster) -> bool {
    &&& forall|q: u8| is_rank(w.n, q) ==> #[trigger] carries(w, q)
    &&& forall|op: Op| #[trigger] w.given.dom().contains(op) ==> w.floor.dom().contains(op)
    &&& forall|op: Op| #[trigger] w.answered.dom().contains(op) ==> !w.wrote.contains(op)
    &&& forall|op: Op| #[trigger]
        w.wrote.contains(op) ==> w.given.dom().contains(op) && w.written[(
            w.serving[op],
            w.chosen[op],
        )] == w.given[op]
    &&& forall|s: u64, st: Stamp| #[trigger]
        w.written.dom().contains((s, st)) ==> exists|op: Op| writes_under(w, op, s, st)
    &&& forall|op: Op| #[trigger]
        w.finished.contains(op) ==> w.complete.contains((w.serving[op], w.chosen[op]))
    &&& forall|op: Op| #[trigger] w.preceded.dom().contains(op) ==> w.floor.dom().contains(op)
    &&& forall|a: Op, b: Op|
        w.preceded.dom().contains(b) && #[trigger] w.preceded[b].contains(a)
            ==> w.finished.contains(a) && w.started[a] < w.started[b] && (w.serving[a]
            == w.serving[b] ==> w.floor[b].contains(w.chosen[a]))
    &&& forall|op: Op| #[trigger]
        w.floor.dom().contains(op) ==> w.started.dom().contains(op) && w.started[op] < w.clock
    &&& forall|a: Op, b: Op|
        #[trigger] w.floor.dom().contains(a) && #[trigger] w.floor.dom().contains(b) && a != b
            ==> w.started[a] != w.started[b]
}

/// The operation `op` is a write on the sector `s` that has chosen the
/// stamp `st`.
pub open spec fn writes_under(w: Cluster, op: Op, s: u64, st: Stamp) -> bool {
    w.wrote.contains(op) && w.serving[op] == s && w.chosen[op] == st
}

/// A restart keeps what clients gave.
proof fn lemma_restart_keeps_record(w: Cluster, at: u8)
    requires
        cluster_ok(w),
        record_ok(w),
    ensures
        record_ok(after_restart(w, at)),
{
    let v = after_restart(w, at);
    assert forall|q: u8| is_rank(v.n, q) implies #[trigger] carries(v, q) by {
        assert(carries(w, q));
    }
    assert forall|s: u64, st: Stamp| #[trigger] v.written.dom().contains((s, st)) implies exists|
        op: Op,
    | writes_under(v, op, s, st) by {
        let op = choose|op: Op| writes_under(w, op, s, st);
        assert(writes_under(v, op, s, st));
    }
}

/// A client's command keeps what clients gave, and a write adds its data.
proof fn lemma_client_keeps_record(w: Cluster, at: u8, cmd: ClientCommandView, msg_ident: u128)
    requires
        cluster_ok(w),
        values_ok(w),
        record_ok(w),
    ensures
        record_ok(after_client(w, at, cmd, msg_ident)),
{
    let v = after_client(w, at, cmd, msg_ident);
    let m = w.registers[at];
    if is_rank(w.n, at) && !m.pending && client_outcome(m, cmd, msg_ident).1 is Ok {
        let op = (at, (m.rid + 1) as u64);
        assert(v.registers[at].rid == op.1);
        assert forall|q: u8| is_rank(v.n, q) implies #[trigger] carries(v, q) by {
            assert(carries(w, q));
        }
        assert forall|other: Op| #[trigger] v.wrote.contains(other) implies v.given.dom().contains(
            other,
        ) && v.written[(v.serving[other], v.chosen[other])] == v.given[other] by {
            assert(w.chosen.dom().contains(other));
            assert(other != op);
        }
        assert forall|s: u64, st: Stamp| #[trigger] v.written.dom().contains((s, st)) implies exists|
            other: Op,
        | writes_under(v, other, s, st) by {
            let other = choose|other: Op| writes_under(w, other, s, st);
            assert(w.chosen.dom().contains(other));
            assert(other != op);
            assert(writes_under(v, other, s, st));
        }
        assert forall|a: Op, b: Op|
            v.preceded.dom().contains(b) && #[trigger] v.preceded[b].contains(
                a,
            ) implies v.finished.contains(a) && v.started[a] < v.started[b] && (v.serving[a]
            == v.serving[b] ==> v.floor[b].contains(v.chosen[a])) by {
            if b == op {
                assert(w.finished.contains(a));
            } else {
                assert(w.preceded[b].contains(a));
                assert(w.floor.dom().contains(b));
            }
            assert(w.chosen.dom().contains(a));
            assert(w.floor.dom().contains(a));
            assert(a != op);
        }
        assert(!w.floor.dom().contains(op));
        assert forall|a: Op, b: Op|
            #[trigger] v.floor.dom().contains(a) && #[trigger] v.floor.dom().contains(b) && a
                != b implies v.started[a] != v.started[b] by {
            if a != op {
                assert(w.floor.dom().contains(a));
            }
            if b != op {
                assert(w.floor.dom().contains(b));
            }
        }
        assert forall|other: Op| #[trigger] v.finished.contains(other) implies v.complete.contains(
            (v.serving[other], v.chosen[other]),
        ) by {
            assert(w.chosen.dom().contains(other));
            assert(other != op);
        }
    }
}

/// A delivery keeps what clients gave, and the write that chooses its stamp
/// puts its client's data under it.
proof fn lemma_deliver_keeps_record(w: Cluster, at: u8, msg: SystemCommandView, msg_ident: u128)
    requires
        cluster_ok(w),
        values_ok(w),
        record_ok(w),
    ensures
        record_ok(after_deliver(w, at, msg, msg_ident)),
{
    let v = after_deliver(w, at, msg, msg_ident);
    let m = w.registers[at];
    let s = msg.header.sector_idx;
    let disk = w.disks[(at, s)];
    let outcome = system_outcome(m, msg, Some(disk.data), msg_ident);
    if is_rank(w.n, at) && w.sent.contains((at as usize, msg)) {
        lemma_deliver_keeps_ok(w, at, msg, msg_ident);
        lemma_deliver_keeps_values(w, at, msg, msg_ident);
        let op = (at, m.rid);
        assert(carries(w, at));
        assert(register_ok(w, at));
        assert(message_ok(w, at as usize, msg));
        assert(outcome.0.writing ==> m.writing && outcome.0.rid == m.rid && outcome.0.writeval
            == m.writeval);
        assert forall|q: u8| is_rank(v.n, q) implies #[trigger] carries(v, q) by {
            assert(carries(w, q));
        }
        if outcome.1 is Ok {
            let ends_read = msg.content is Value && ends_read_phase(m, msg.header);
            assert forall|other: Op| #[trigger] v.wrote.contains(other) implies v.given.dom().contains(
                other,
            ) && v.written[(v.serving[other], v.chosen[other])] == v.given[other] by {
                if ends_read && other != op && w.wrote.contains(other) {
                    assert(w.chosen.dom().contains(other));
                    if !m.reading {
                        assert(v.wrote.contains(op));
                    }
                }
            }
            assert forall|x: u64, st: Stamp| #[trigger]
                v.written.dom().contains((x, st)) implies exists|other: Op|
                writes_under(v, other, x, st) by {
                if w.written.dom().contains((x, st)) {
                    let other = choose|other: Op| writes_under(w, other, x, st);
                    assert(w.chosen.dom().contains(other));
                    assert(writes_under(v, other, x, st));
                } else {
                    assert(writes_under(v, op, x, st));
                }
            }
        } else {
            assert forall|x: u64, st: Stamp| #[trigger]
                v.written.dom().contains((x, st)) implies exists|other: Op|
                writes_under(v, other, x, st) by {
                let other = choose|other: Op| writes_under(w, other, x, st);
                assert(writes_under(v, other, x, st));
            }
        }
        assert forall|other: Op| #[trigger] v.finished.contains(other) implies v.complete.contains(
            (v.serving[other], v.chosen[other]),
        ) by {
            if w.finished.contains(other) {
                assert(w.chosen.dom().contains(other));
            }
        }
        assert forall|a: Op, b: Op|
            v.preceded.dom().contains(b) && #[trigger] v.preceded[b].contains(
                a,
            ) implies v.finished.contains(a) && v.started[a] < v.started[b] && (v.serving[a]
            == v.serving[b] ==> v.floor[b].contains(v.chosen[a])) by {
            assert(w.preceded[b].contains(a));
            assert(w.finished.contains(a));
            assert(w.chosen.dom().contains(a));
        }
    }
}

/// Whatever happens, in whatever order, clients' data stays where it was
/// put.
pub proof fn lemma_record_stays_ok(w: Cluster, events: Seq<ClusterEvent>)
    requires
        cluster_ok(w),
        values_ok(w),
        record_ok(w),
    ensures
        record_ok(after_all(w, events)),
    decreases events.len(),
{
    if events.len() > 0 {
        lemma_record_stays_ok(w, events.drop_last());
        lemma_values_stay_ok(w, events.drop_last());
        let before = after_all(w, events.drop_last());
        match events.last() {
            ClusterEvent::Client { at, cmd, msg_ident } => lemma_client_keeps_record(
                before,
                at,
                cmd,
                msg_ident,
            ),
            ClusterEvent::Deliver { at, msg, msg_ident } => lemma_deliver_keeps_record(
                before,
                at,
                msg,
                msg_ident,
            ),
            ClusterEvent::Restart { at } => lemma_restart_keeps_record(before, at),
        }
    }
}

/// Operations take effect in the order of their stamps, and that order
/// follows time. Whatever happens in a cluster, in whatever order and with
/// whatever restarts:
/// an operation that started when an operation on its sector with the stamp
/// `st` was complete imposes `st` or a later stamp, and a write a later one.
pub proof fn lemma_operations_follow_time(
    n: usize,
    events: Seq<ClusterEvent>,
    op: Op,
    st: Stamp,
)
    requires
        n <= 255,
    ensures
        ({
            let w = after_all(initial_cluster(n), events);
            &&& w.floor.dom().contains(op) && w.floor[op].contains(st) ==> w.complete.contains(
                (w.serving[op], st),
            )
            &&& w.chosen.dom().contains(op) && floor_of(w.floor, op).contains(st) ==> at_least(
                w.chosen[op],
                st,
            ) && (w.wrote.contains(op) ==> later(w.chosen[op].0, w.chosen[op].1, st.0, st.1))
        }),
{
    lemma_initial_cluster_ok(n);
    lemma_initial_values_ok(n);
    lemma_values_stay_ok(initial_cluster(n), events);
}

/// Every write has a stamp of its own: whatever happens in a cluster, two
/// writes on one sector that have chosen their stamps have chosen different
/// ones, each with the rank of its process, and under the stamp of a write
/// stands its data.
pub proof fn lemma_writes_have_their_own_stamps(
    n: usize,
    events: Seq<ClusterEvent>,
    a: Op,
    b: Op,
)
    requires
        n <= 255,
    ensures
        ({
            let w = after_all(initial_cluster(n), events);
            &&& w.wrote.contains(a) && w.wrote.contains(b) && a != b && w.serving[a]
                == w.serving[b] ==> w.chosen[a] != w.chosen[b]
            &&& w.wrote.contains(a) ==> w.chosen[a].1 == a.0 && w.written.dom().contains(
                (w.serving[a], w.chosen[a]),
            )
        }),
{
    lemma_initial_cluster_ok(n);
    lemma_initial_values_ok(n);
    lemma_values_stay_ok(initial_cluster(n), events);
}

/// A read returns the data of the write whose stamp it imposes, or zeros
/// where nothing was written: whatever happens in a cluster, the answer
/// that a client got for a read is what stands under the stamp of the read
/// on its sector.
pub proof fn lemma_reads_return_what_was_written(n: usize, events: Seq<ClusterEvent>, op: Op)
    requires
        n <= 255,
    ensures
        ({
            let w = after_all(initial_cluster(n), events);
            w.answered.dom().contains(op) ==> w.chosen.dom().contains(op) && valued(
                w.written,
                w.serving[op],
                w.chosen[op],
                w.answered[op],
            )
        }),
{
    lemma_initial_cluster_ok(n);
    lemma_initial_values_ok(n);
    lemma_values_stay_ok(initial_cluster(n), events);
}

/// Under the stamp of a write stands what its client gave: whatever
/// happens in a cluster, the data that stands on a sector under the stamp
/// that a write on it has chosen is the data of the command that started
/// the write.
pub proof fn lemma_writes_store_what_clients_gave(n: usize, events: Seq<ClusterEvent>, op: Op)
    requires
        n <= 255,
    ensures
        ({
            let w = after_all(initial_cluster(n), events);
            w.wrote.contains(op) ==> w.given.dom().contains(op) && w.written[(
                w.serving[op],
                w.chosen[op],
            )] == w.given[op]
        }),
{
    lemma_initial_cluster_ok(n);
    lemma_initial_values_ok(n);
    lemma_values_stay_ok(initial_cluster(n), events);
    lemma_record_stays_ok(initial_cluster(n), events);
}

/// What is complete survives: whatever happens in a cluster, with whatever
/// restarts, the disks of more than half of the processes hold for a sector
/// the stamp of every complete operation on it or a later one, the disk of
/// every process holds under the stamp of a sector the data that stands
/// under that stamp, and the register of every process knows of every
/// sector what its disk holds.
pub proof fn lemma_complete_operations_survive(
    n: usize,
    events: Seq<ClusterEvent>,
    s: u64,
    st: Stamp,
    q: u8,
)
    requires
        n <= 255,
    ensures
        ({
            let w = after_all(initial_cluster(n), events);
            &&& w.complete.contains((s, st)) ==> holders_ok(w, s, st)
            &&& is_rank(w.n, q) ==> disk_valued(w, q, s) && knows(w, q, s)
        }),
{
    lemma_initial_cluster_ok(n);
    lemma_initial_values_ok(n);
    lemma_values_stay_ok(initial_cluster(n), events);
    let w = after_all(initial_cluster(n), events);
    if is_rank(w.n, q) {
        assert(disk_valued(w, q, s));
        assert(knows(w, q, s));
    }
}

/// The order in which the operations on a sector take effect: by their
/// stamps; under one stamp the write before the reads that return its data;
/// and those reads in the order in which they started.
pub open spec fn takes_effect_before(w: Cluster, a: Op, b: Op) -> bool {
    ||| later(w.chosen[b].0, w.chosen[b].1, w.chosen[a].0, w.chosen[a].1)
    ||| w.chosen[a] == w.chosen[b] && w.wrote.contains(a) && !w.wrote.contains(b)
    ||| w.chosen[a] == w.chosen[b] && w.wrote.contains(a) == w.wrote.contains(b)
        && w.started[a] < w.started[b]
}

/// The operation is one on the sector `s` that has chosen its stamp.
pub open spec fn takes_effect_on(w: Cluster, op: Op, s: u64) -> bool {
    w.chosen.dom().contains(op) && w.serving[op] == s
}

/// Taking effect is a total order of the operations on a sector: whatever
/// happens in a cluster, no operation takes effect before itself; one that
/// takes effect before a second, which takes effect before a third, takes
/// effect before the third; and of two operations on one sector that have
/// chosen their stamps, one takes effect before the other.
pub proof fn lemma_effects_are_ordered(
    n: usize,
    events: Seq<ClusterEvent>,
    s: u64,
    a: Op,
    b: Op,
    c: Op,
)
    requires
        n <= 255,
    ensures
        ({
            let w = after_all(initial_cluster(n), events);
            &&& !takes_effect_before(w, a, a)
            &&& takes_effect_before(w, a, b) && takes_effect_before(w, b, c)
                ==> takes_effect_before(w, a, c)
            &&& a != b && takes_effect_on(w, a, s) && takes_effect_on(w, b, s)
                ==> takes_effect_before(w, a, b) || takes_effect_before(w, b, a)
        }),
{
    lemma_initial_cluster_ok(n);
    lemma_initial_values_ok(n);
    lemma_values_stay_ok(initial_cluster(n), events);
    lemma_record_stays_ok(initial_cluster(n), events);
    let w = after_all(initial_cluster(n), events);
    if a != b && takes_effect_on(w, a, s) && takes_effect_on(w, b, s) {
        assert(w.floor.dom().contains(a));
        assert(w.floor.dom().contains(b));
    }
}

/// Time is respected: whatever happens in a cluster, an operation takes
/// effect behind every operation on its sector whose client had its answer
/// when it started.
pub proof fn lemma_time_is_respected(n: usize, events: Seq<ClusterEvent>, a: Op, b: Op)
    requires
        n <= 255,
    ensures
        ({
            let w = after_all(initial_cluster(n), events);
            w.preceded.dom().contains(b) && w.preceded[b].contains(a) && w.serving[a]
                == w.serving[b] && w.chosen.dom().contains(b) ==> w.chosen.dom().contains(a)
                && takes_effect_before(w, a, b)
        }),
{
    let w = after_all(initial_cluster(n), events);
    lemma_initial_cluster_ok(n);
    lemma_initial_values_ok(n);
    lemma_values_stay_ok(initial_cluster(n), events);
    lemma_record_stays_ok(initial_cluster(n), events);
    if w.preceded.dom().contains(b) && w.preceded[b].contains(a) && w.serving[a] == w.serving[b]
        && w.chosen.dom().contains(b) {
        assert(w.floor.dom().contains(b));
        assert(floor_of(w.floor, b).contains(w.chosen[a]));
        lemma_operations_follow_time(n, events, b, w.chosen[a]);
        assert(w.finished.contains(a));
        assert(w.chosen.dom().contains(a));
    }
}

/// The write `a` is the last write before the operation `r` on its sector:
/// it takes effect before `r`, and every other write on the sector that
/// does takes effect before `a`. Its client has given its data.
pub open spec fn last_write_before(w: Cluster, a: Op, r: Op) -> bool {
    &&& w.wrote.contains(a)
    &&& w.given.dom().contains(a)
    &&& w.serving[a] == w.serving[r]
    &&& takes_effect_before(w, a, r)
    &&& forall|x: Op|
        w.wrote.contains(x) && w.serving[x] == w.serving[r] && #[trigger] takes_effect_before(
            w,
            x,
            r,
        ) && x != a ==> takes_effect_before(w, x, a)
}

/// A read returns the data of the last write before it: whatever happens
/// in a cluster, the answer that a client got for a read is what the client
/// of a write on the sector gave, a write that takes effect before the read
/// and behind every other write on the sector that does; or it is zeros,
/// and no write on the sector takes effect before the read.
pub proof fn lemma_reads_return_the_last_write(n: usize, events: Seq<ClusterEvent>, r: Op)
    requires
        n <= 255,
    ensures
        ({
            let w = after_all(initial_cluster(n), events);
            w.answered.dom().contains(r) ==> {
                ||| exists|a: Op| last_write_before(w, a, r) && w.answered[r] == w.given[a]
                ||| w.answered[r] == zero_sector() && forall|x: Op|
                    w.wrote.contains(x) && w.serving[x] == w.serving[r] ==> !takes_effect_before(
                        w,
                        x,
                        r,
                    )
            }
        }),
{
    lemma_initial_cluster_ok(n);
    lemma_initial_values_ok(n);
    lemma_values_stay_ok(initial_cluster(n), events);
    lemma_record_stays_ok(initial_cluster(n), events);
    let w = after_all(initial_cluster(n), events);
    if w.answered.dom().contains(r) {
        assert(!w.wrote.contains(r));
        if w.chosen[r] != (0u64, 0u8) {
            assert(w.written.dom().contains((w.serving[r], w.chosen[r])));
            let a = choose|a: Op| writes_under(w, a, w.serving[r], w.chosen[r]);
            assert(w.wrote.contains(a));
            assert(takes_effect_before(w, a, r));
            assert forall|x: Op|
                w.wrote.contains(x) && w.serving[x] == w.serving[r] && takes_effect_before(w, x, r)
                    && x != a implies takes_effect_before(w, x, a) by {
                assert(w.chosen[x] != w.chosen[a]);
            }
            assert(last_write_before(w, a, r));
        } else {
            assert forall|x: Op|
                w.wrote.contains(x) && w.serving[x] == w.serving[r] implies !takes_effect_before(
                w,
                x,
                r,
            ) by {
                assert(w.written.dom().contains((w.serving[x], w.chosen[x])));
                assert(w.chosen[x].0 >= 1);
            }
        }
    }
}

/// A read sees what was written before it: whatever happens in a cluster,
/// with whatever restarts, a read that started at whatever process when the
/// client of a write on its sector had its answer returns what the client
/// of that write gave, or what the client of a write gave that takes effect
/// behind it.
pub proof fn lemma_reads_see_complete_writes(
    n: usize,
    events: Seq<ClusterEvent>,
    r: Op,
    a: Op,
)
    requires
        n <= 255,
    ensures
        ({
            let w = after_all(initial_cluster(n), events);
            w.answered.dom().contains(r) && w.preceded.dom().contains(r) && w.preceded[r].contains(a)
                && w.wrote.contains(a) && w.serving[a] == w.serving[r] ==> exists|x: Op|
                last_write_before(w, x, r) && w.answered[r] == w.given[x] && (x == a
                    || takes_effect_before(w, a, x))
        }),
{
    let w = after_all(initial_cluster(n), events);
    lemma_initial_cluster_ok(n);
    lemma_initial_values_ok(n);
    lemma_values_stay_ok(initial_cluster(n), events);
    lemma_record_stays_ok(initial_cluster(n), events);
    if w.answered.dom().contains(r) && w.preceded.dom().contains(r) && w.preceded[r].contains(a)
        && w.wrote.contains(a) && w.serving[a] == w.serving[r] {
        lemma_time_is_respected(n, events, a, r);
        lemma_reads_return_the_last_write(n, events, r);
        assert(takes_effect_before(w, a, r));
        let x = choose|x: Op| last_write_before(w, x, r) && w.answered[r] == w.given[x];
        assert(last_write_before(w, x, r));
    }
}

} // verus!
