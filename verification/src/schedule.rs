//! A command can always be completed: from whatever a cluster has come to,
//! the messages between the process that serves a client and any majority
//! of the processes, delivered one after the other, end with the answer to
//! the client.

use crate::cluster::{
    after_all, after_client, after_deliver, cluster_ok, emitted, is_rank, knows,
    lemma_client_effects, lemma_client_keeps_ok, lemma_deliver_effects, lemma_deliver_keeps_ok,
    message_ok, register_ok, shape_ok, Cluster, ClusterEvent, Op,
};
use crate::domain::{zero_sector, ClientCommandView, SystemCommandView, SystemContentView};
use crate::progress::{
    answer_of, imposition, lemma_after_push, lemma_after_runs, lemma_question_is_answered,
    question,
};
use crate::register::{
    all_answers, ends_read_phase, latest, majority, message_from, system_outcome,
    timestamp_overflows,
};
use crate::register_laws::lemma_latest_is_latest;
use vstd::prelude::*;

verus! {

/// The deliveries of a read phase: each process of `qs` in turn gets the
/// question, and the process that asked gets its answer.
pub open spec fn read_round(w: Cluster, p: u8, ask: SystemCommandView, qs: Seq<u8>) -> Seq<
    ClusterEvent,
>
    decreases qs.len(),
{
    if qs.len() == 0 {
        Seq::empty()
    } else {
        let before = read_round(w, p, ask, qs.drop_last());
        let q = qs.last();
        let answer = answer_of(after_all(w, before), q, ask, 0);
        before.push(ClusterEvent::Deliver { at: q, msg: ask, msg_ident: 0 }).push(
            ClusterEvent::Deliver { at: p, msg: answer, msg_ident: 0 },
        )
    }
}

/// The acknowledgement of the process `q`, as things stand.
pub open spec fn ack_of(w: Cluster, q: u8, imposed: SystemCommandView) -> SystemCommandView {
    message_from(
        w.registers[q],
        0,
        imposed.header.read_ident,
        imposed.header.sector_idx,
        SystemContentView::Ack,
    )
}

/// The deliveries of a write phase: each process of `qs` in turn gets the
/// value that is imposed, and the process that imposes it gets the
/// acknowledgement.
pub open spec fn write_round(w: Cluster, p: u8, imposed: SystemCommandView, qs: Seq<u8>) -> Seq<
    ClusterEvent,
>
    decreases qs.len(),
{
    if qs.len() == 0 {
        Seq::empty()
    } else {
        let before = write_round(w, p, imposed, qs.drop_last());
        let q = qs.last();
        let ack = ack_of(after_all(w, before), q, imposed);
        before.push(ClusterEvent::Deliver { at: q, msg: imposed, msg_ident: 0 }).push(
            ClusterEvent::Deliver { at: p, msg: ack, msg_ident: 0 },
        )
    }
}

/// The ranks in `qs` are ranks of processes, each at most once.
pub open spec fn distinct_ranks(n: usize, qs: Seq<u8>) -> bool {
    &&& forall|i: int| 0 <= i < qs.len() ==> is_rank(n, #[trigger] qs[i])
    &&& qs.no_duplicates()
}

/// Where a read phase stands for the process `p` that has asked `ask`:
/// the question is with every process, and either the phase is over and the
/// value that is imposed is with every process, or the answers of the
/// processes in `noted` are noted and none of them would make a timestamp
/// overflow.
pub open spec fn reading_well(
    w: Cluster,
    p: u8,
    ask: SystemCommandView,
    noted: Set<u8>,
    reads: bool,
) -> bool {
    let m = w.registers[p];
    &&& cluster_ok(w)
    &&& is_rank(w.n, p)
    &&& ask == question(p, m.rid, ask.header.sector_idx, ask.header.msg_ident)
    &&& w.serving[(p, m.rid)] == ask.header.sector_idx
    &&& forall|q: u8| #[trigger] is_rank(w.n, q) ==> w.sent.contains((q as usize, ask))
    &&& m.pending
    &&& m.reading == reads
    &&& if m.write_phase {
        imposing_well(w, p)
    } else {
        &&& noted.subset_of(m.readlist.dom())
        &&& !majority(noted.len(), w.n)
        &&& forall|q: u8| #[trigger]
            is_rank(w.n, q) ==> w.disks[(q, ask.header.sector_idx)].stamp.0 < u64::MAX
        &&& forall|q: u8| m.readlist.dom().contains(q) ==> (#[trigger] m.readlist[q]).0 < u64::MAX
    }
}

/// The value that `p` imposes is with every process.
pub open spec fn imposing_well(w: Cluster, p: u8) -> bool {
    forall|q: u8| #[trigger] is_rank(w.n, q) ==> w.sent.contains((q as usize, imposition(w, p, 0)))
}

/// One step of a read phase: a process gets the question, and the process
/// that asked gets the answer. The answer is noted, or the phase is over.
proof fn lemma_read_step(
    w: Cluster,
    p: u8,
    ask: SystemCommandView,
    noted: Set<u8>,
    reads: bool,
    q: u8,
)
    requires
        reading_well(w, p, ask, noted, reads),
        is_rank(w.n, q),
        noted.finite(),
    ensures
        ({
            let v = after_deliver(after_deliver(w, q, ask, 0), p, answer_of(w, q, ask, 0), 0);
            &&& reading_well(v, p, ask, noted.insert(q), reads)
            &&& v.registers[p].rid == w.registers[p].rid
            &&& v.n == w.n
        }),
{
    let w1 = after_deliver(w, q, ask, 0);
    let answer = answer_of(w, q, ask, 0);
    let v = after_deliver(w1, p, answer, 0);
    let m = w.registers[p];
    lemma_question_is_answered(w, ask, q, 0);
    lemma_deliver_keeps_ok(w1, p, answer, 0);
    assert(message_ok(w1, p as usize, answer));
    assert(register_ok(w1, p));
    let here = w1.disks[(p, ask.header.sector_idx)];
    assert(shape_ok(w1));
    assert(knows(w1, p, ask.header.sector_idx));
    let outcome = system_outcome(m, answer, Some(here.data), 0);
    let heard = all_answers(m, answer, here.data);
    if !m.write_phase {
        if ends_read_phase(m, answer.header) {
            lemma_latest_is_latest(heard, p);
            assert(!timestamp_overflows(m, answer, here.data)) by {
                if latest(heard) != (0u64, 0u8, zero_sector()) {
                    let x = choose|x: u8| heard.dom().contains(x) && heard[x] == latest(heard);
                    if x != p && x != q {
                        assert(m.readlist.dom().contains(x));
                    }
                }
            }
        }
    }
    assert(outcome.1 is Ok);
    lemma_deliver_effects(w1, p, answer, 0);
    let n = v.registers[p];
    assert forall|t: u8| #[trigger] is_rank(v.n, t) implies v.sent.contains((t as usize, ask)) by {
        assert(is_rank(w.n, t));
    }
    if m.write_phase {
        assert(n == m);
        assert(imposition(v, p, 0) == imposition(w, p, 0));
        assert forall|t: u8| #[trigger] is_rank(v.n, t) implies v.sent.contains(
            (t as usize, imposition(v, p, 0)),
        ) by {
            assert(is_rank(w.n, t));
        }
    } else if ends_read_phase(m, answer.header) {
        assert forall|t: u8| #[trigger] is_rank(v.n, t) implies v.sent.contains(
            (t as usize, imposition(v, p, 0)),
        ) by {
            assert(emitted(w1, p, answer, 0, t as usize, imposition(v, p, 0)));
        }
    } else {
        let grown = noted.insert(q);
        assert(grown.subset_of(n.readlist.dom()));
        assert(n.readlist.dom() =~= m.readlist.dom().insert(q));
        vstd::set_lib::lemma_len_subset(grown, n.readlist.dom());
        assert forall|t: u8| #[trigger] is_rank(v.n, t) implies v.disks[(
            t,
            ask.header.sector_idx,
        )].stamp.0 < u64::MAX by {
            assert(is_rank(w.n, t));
        }
        assert forall|x: u8| n.readlist.dom().contains(x) implies (#[trigger] n.readlist[x]).0
            < u64::MAX by {
            if x != q {
                assert(m.readlist.dom().contains(x));
            }
        }
    }
}

/// A read phase, step by step: after the deliveries for the processes of
/// `qs`, their answers are noted, or the phase is over.
proof fn lemma_read_round(w: Cluster, p: u8, ask: SystemCommandView, qs: Seq<u8>, reads: bool)
    requires
        reading_well(w, p, ask, Set::empty(), reads),
        forall|i: int| 0 <= i < qs.len() ==> is_rank(w.n, #[trigger] qs[i]),
    ensures
        ({
            let v = after_all(w, read_round(w, p, ask, qs));
            &&& reading_well(v, p, ask, qs.to_set(), reads)
            &&& v.registers[p].rid == w.registers[p].rid
            &&& v.n == w.n
        }),
    decreases qs.len(),
{
    if qs.len() == 0 {
        assert(qs.to_set() =~= Set::<u8>::empty());
    } else {
        let rest = qs.drop_last();
        let q = qs.last();
        lemma_read_round(w, p, ask, rest, reads);
        let before = read_round(w, p, ask, rest);
        let u = after_all(w, before);
        let answer = answer_of(u, q, ask, 0);
        let first = ClusterEvent::Deliver { at: q, msg: ask, msg_ident: 0 };
        let second = ClusterEvent::Deliver { at: p, msg: answer, msg_ident: 0 };
        lemma_after_push(w, before, first);
        lemma_after_push(w, before.push(first), second);
        vstd::seq_lib::seq_to_set_is_finite(rest);
        assert(is_rank(w.n, qs[qs.len() - 1]));
        lemma_read_step(u, p, ask, rest.to_set(), reads, q);
        assert(qs.to_set() =~= rest.to_set().insert(q)) by {
            assert(qs =~= rest.push(q));
            assert forall|x: u8| qs.to_set().contains(x) <==> rest.to_set().insert(q).contains(
                x,
            ) by {
                if qs.to_set().contains(x) {
                    let i = choose|i: int| 0 <= i < qs.len() && qs[i] == x;
                    if i < rest.len() {
                        assert(rest[i] == x);
                    }
                }
                if rest.to_set().contains(x) {
                    let i = choose|i: int| 0 <= i < rest.len() && rest[i] == x;
                    assert(qs[i] == x);
                }
            }
        }
    }
}

/// Where a write phase stands for the process `p`: the value that is
/// imposed is with every process and the acknowledgements of the processes
/// in `acked` are noted, or the operation is complete and, for a read, the
/// client has its answer.
pub open spec fn writing_well(
    w: Cluster,
    p: u8,
    op: Op,
    imposed: SystemCommandView,
    acked: Set<u8>,
    reads: bool,
) -> bool {
    let m = w.registers[p];
    &&& cluster_ok(w)
    &&& is_rank(w.n, p)
    &&& op == (p, m.rid)
    &&& w.chosen.dom().contains(op)
    &&& if m.pending {
        &&& m.write_phase
        &&& m.reading == reads
        &&& imposed == imposition(w, p, 0)
        &&& imposing_well(w, p)
        &&& acked.subset_of(m.acklist)
        &&& !majority(acked.len(), w.n)
    } else {
        &&& w.complete.contains((w.serving[op], w.chosen[op]))
        &&& w.finished.contains(op)
        &&& reads ==> w.answered.dom().contains(op)
    }
}

/// One step of a write phase: a process gets the value that is imposed,
/// and the process that imposes it gets the acknowledgement. It is noted,
/// or the operation is complete.
proof fn lemma_write_step(
    w: Cluster,
    p: u8,
    op: Op,
    imposed: SystemCommandView,
    acked: Set<u8>,
    reads: bool,
    q: u8,
)
    requires
        writing_well(w, p, op, imposed, acked, reads),
        is_rank(w.n, q),
        acked.finite(),
    ensures
        ({
            let w1 = after_deliver(w, q, imposed, 0);
            let v = after_deliver(w1, p, ack_of(w, q, imposed), 0);
            &&& writing_well(v, p, op, imposed, acked.insert(q), reads)
            &&& v.n == w.n
        }),
{
    let m = w.registers[p];
    let w1 = after_deliver(w, q, imposed, 0);
    let ack = ack_of(w, q, imposed);
    let v = after_deliver(w1, p, ack, 0);
    assert(register_ok(w, p));
    assert(shape_ok(w));
    if m.pending {
        assert(w.sent.contains((q as usize, imposed)));
        lemma_deliver_keeps_ok(w, q, imposed, 0);
        assert(message_ok(w, q as usize, imposed));
        lemma_deliver_effects(w, q, imposed, 0);
        assert(emitted(w, q, imposed, 0, p as usize, ack));
        let m1 = w1.registers[p];
        assert(m1.rid == m.rid && m1.write_phase == m.write_phase && m1.acklist == m.acklist
            && m1.reading == m.reading && m1.writing == m.writing && m1.pending == m.pending
            && m1.readval == m.readval && m1.writeval == m.writeval && m1.self_ident
            == m.self_ident);
        assert(imposition(w1, p, 0) == imposed);
        lemma_deliver_keeps_ok(w1, p, ack, 0);
        assert(message_ok(w1, p as usize, ack));
        assert(register_ok(w1, p));
        lemma_deliver_effects(w1, p, ack, 0);
        let n = v.registers[p];
        if n.pending {
            assert(imposition(v, p, 0) == imposed);
            assert forall|t: u8| #[trigger] is_rank(v.n, t) implies v.sent.contains(
                (t as usize, imposition(v, p, 0)),
            ) by {
                assert(is_rank(w.n, t));
                assert(w.sent.contains((t as usize, imposed)));
                assert(w1.sent.contains((t as usize, imposed)));
            }
            let grown = acked.insert(q);
            assert(n.acklist =~= m.acklist.insert(q));
            assert(grown.subset_of(n.acklist));
            vstd::set_lib::lemma_len_subset(grown, n.acklist);
        }
    } else {
        lemma_deliver_keeps_ok(w, q, imposed, 0);
        lemma_deliver_keeps_ok(w1, p, ack, 0);
        if w.sent.contains((q as usize, imposed)) {
            assert(message_ok(w, q as usize, imposed));
            assert(knows(w, q, imposed.header.sector_idx));
            if system_outcome(
                w.registers[q],
                imposed,
                Some(w.disks[(q, imposed.header.sector_idx)].data),
                0,
            ).1 is Ok {
                lemma_deliver_effects(w, q, imposed, 0);
            }
        }
        let m1 = w1.registers[p];
        assert(!m1.pending && m1.rid == m.rid && !m1.write_phase && w1.chosen.dom().contains(op)
            && w1.chosen[op] == w.chosen[op] && w1.serving[op] == w.serving[op]
            && w1.complete.contains((w.serving[op], w.chosen[op]))
            && w1.finished.contains(op) && (reads ==> w1.answered.dom().contains(op)));
        assert(shape_ok(w1));
        if w1.sent.contains((p as usize, ack)) {
            assert(message_ok(w1, p as usize, ack));
            assert(knows(w1, p, ack.header.sector_idx));
            if system_outcome(m1, ack, Some(w1.disks[(p, ack.header.sector_idx)].data), 0).1 is Ok {
                lemma_deliver_effects(w1, p, ack, 0);
            }
        }
    }
}

/// A write phase, step by step: after the deliveries for the processes of
/// `qs`, their acknowledgements are noted, or the operation is complete.
proof fn lemma_write_round(
    w: Cluster,
    p: u8,
    op: Op,
    imposed: SystemCommandView,
    qs: Seq<u8>,
    reads: bool,
)
    requires
        writing_well(w, p, op, imposed, Set::empty(), reads),
        forall|i: int| 0 <= i < qs.len() ==> is_rank(w.n, #[trigger] qs[i]),
    ensures
        ({
            let v = after_all(w, write_round(w, p, imposed, qs));
            &&& writing_well(v, p, op, imposed, qs.to_set(), reads)
            &&& v.n == w.n
        }),
    decreases qs.len(),
{
    if qs.len() == 0 {
        assert(qs.to_set() =~= Set::<u8>::empty());
    } else {
        let rest = qs.drop_last();
        let q = qs.last();
        lemma_write_round(w, p, op, imposed, rest, reads);
        let before = write_round(w, p, imposed, rest);
        let u = after_all(w, before);
        let ack = ack_of(u, q, imposed);
        let first = ClusterEvent::Deliver { at: q, msg: imposed, msg_ident: 0 };
        let second = ClusterEvent::Deliver { at: p, msg: ack, msg_ident: 0 };
        lemma_after_push(w, before, first);
        lemma_after_push(w, before.push(first), second);
        vstd::seq_lib::seq_to_set_is_finite(rest);
        assert(is_rank(w.n, qs[qs.len() - 1]));
        lemma_write_step(u, p, op, imposed, rest.to_set(), reads, q);
        assert(qs.to_set() =~= rest.to_set().insert(q)) by {
            assert(qs =~= rest.push(q));
            assert forall|x: u8| qs.to_set().contains(x) <==> rest.to_set().insert(q).contains(
                x,
            ) by {
                if qs.to_set().contains(x) {
                    let i = choose|i: int| 0 <= i < qs.len() && qs[i] == x;
                    if i < rest.len() {
                        assert(rest[i] == x);
                    }
                }
                if rest.to_set().contains(x) {
                    let i = choose|i: int| 0 <= i < rest.len() && rest[i] == x;
                    assert(qs[i] == x);
                }
            }
        }
    }
}

/// The events that complete a client's command at the process `p` with the
/// help of the processes of `qs`: the command, a read phase with them, a
/// write phase with them.
pub open spec fn completing(
    w: Cluster,
    p: u8,
    cmd: ClientCommandView,
    msg_ident: u128,
    qs: Seq<u8>,
) -> Seq<ClusterEvent> {
    let start = seq![ClusterEvent::Client { at: p, cmd, msg_ident }];
    let asked = after_all(w, start);
    let ask = question(p, asked.registers[p].rid, cmd.header.sector_idx, msg_ident);
    let reads = read_round(asked, p, ask, qs);
    let chosen = after_all(asked, reads);
    let writes = write_round(chosen, p, imposition(chosen, p, 0), qs);
    start + reads + writes
}

/// A command can always be completed. Take a cluster as it has come to be,
/// a process whose register is idle and has read identifiers left, a
/// command for a sector whose timestamps on the disks are all below the
/// largest, and more than half of the processes. Then the
/// command, the answers of those processes to the process and their
/// acknowledgements, delivered one after the other, end with the operation
/// complete, the register idle again, and the answer to a read given.
pub proof fn lemma_command_can_complete(
    w: Cluster,
    p: u8,
    cmd: ClientCommandView,
    msg_ident: u128,
    qs: Seq<u8>,
)
    requires
        cluster_ok(w),
        is_rank(w.n, p),
        !w.registers[p].pending,
        w.registers[p].rid < u64::MAX,
        forall|q: u8| #[trigger]
            is_rank(w.n, q) ==> w.disks[(q, cmd.header.sector_idx)].stamp.0 < u64::MAX,
        distinct_ranks(w.n, qs),
        2 * qs.len() > w.n,
    ensures
        ({
            let v = after_all(w, completing(w, p, cmd, msg_ident, qs));
            let op = (p, (w.registers[p].rid + 1) as u64);
            &&& cluster_ok(v)
            &&& !v.registers[p].pending
            &&& v.registers[p].rid == op.1
            &&& v.chosen.dom().contains(op)
            &&& v.complete.contains((v.serving[op], v.chosen[op]))
            &&& v.finished.contains(op)
            &&& cmd.content is Read ==> v.answered.dom().contains(op)
        }),
{
    let start = seq![ClusterEvent::Client { at: p, cmd, msg_ident }];
    let asked = after_all(w, start);
    let m = w.registers[p];
    let reads = cmd.content is Read;
    assert(start =~= Seq::<ClusterEvent>::empty().push(start[0]));
    lemma_after_push(w, Seq::empty(), start[0]);
    assert(asked == after_client(w, p, cmd, msg_ident));
    lemma_client_keeps_ok(w, p, cmd, msg_ident);
    lemma_client_effects(w, p, cmd, msg_ident);
    assert(shape_ok(w));
    let ask = question(p, asked.registers[p].rid, cmd.header.sector_idx, msg_ident);
    assert(reading_well(asked, p, ask, Set::empty(), reads)) by {
        assert forall|q: u8| #[trigger] is_rank(asked.n, q) implies asked.sent.contains(
            (q as usize, ask),
        ) && asked.disks[(q, cmd.header.sector_idx)].stamp.0 < u64::MAX by {
            assert(is_rank(w.n, q));
        }
    }
    lemma_read_round(asked, p, ask, qs, reads);
    let round = read_round(asked, p, ask, qs);
    let chosen = after_all(asked, round);
    qs.unique_seq_to_set();
    assert(chosen.registers[p].write_phase);
    let op = (p, chosen.registers[p].rid);
    let imposed = imposition(chosen, p, 0);
    assert(register_ok(chosen, p));
    assert(writing_well(chosen, p, op, imposed, Set::empty(), reads));
    lemma_write_round(chosen, p, op, imposed, qs, reads);
    let writes = write_round(chosen, p, imposed, qs);
    lemma_after_runs(w, start, round);
    lemma_after_runs(w, start + round, writes);
}

} // verus!
