//! The atomic register of one worker: the (N, N) register of Attiya, Bar-Noy
//! and Dolev, as a state machine.
//!
//! A step takes a command and what the worker has read from disk for it, and
//! hands back, in the order in which they must be carried out, what the
//! worker has to store, send and answer.

use crate::domain::{
    ClientCommandView, ClientContentView, ClientRegisterCommand, ClientRegisterCommandContent,
    OperationComplete, OperationCompleteView, OperationReturn, OperationReturnView, ReadReturn,
    SectorVec, StatusCode, SystemCommandHeader, SystemCommandView, SystemContentView,
    SystemRegisterCommand, SystemRegisterCommandContent, zero_sector, empty_sector,
};
use crate::endian::{be_value, u64_be, u64_from_be_bytes, u64_to_be_bytes};
use std::collections::{HashMap, HashSet};
use std::sync::Arc;
use uuid::Uuid;
use vstd::prelude::*;
use vstd::std_specs::hash::group_hash_axioms;

verus! {

broadcast use group_hash_axioms;

/// A system message for every process, the sender included.
pub struct Broadcast {
    pub cmd: Arc<SystemRegisterCommand>,
}

/// A system message for one process.
pub struct Send {
    pub cmd: Arc<SystemRegisterCommand>,
    /// Identifier of the target process. Those start at 1.
    pub target: usize,
}

/// What a step asks the worker to do.
pub enum RegisterEffect {
    /// Store the read identifier durably, before anything that follows.
    StoreRid { rid: u64 },
    /// Store the sector with its timestamp and write rank, before anything
    /// that follows.
    StoreSector { sector_idx: u64, sector: (SectorVec, u64, u8) },
    /// Hand the message to every process.
    Broadcast(Broadcast),
    /// Hand the message to its target.
    Send(Send),
    /// Answer the client whose command is outstanding.
    Complete(OperationComplete),
}

/// [`RegisterEffect`] with its sectors as sequences.
pub enum EffectView {
    StoreRid { rid: u64 },
    StoreSector { sector_idx: u64, data: Seq<u8>, timestamp: u64, write_rank: u8 },
    Broadcast { cmd: SystemCommandView },
    Send { cmd: SystemCommandView, target: usize },
    Complete { op: OperationCompleteView },
}

impl View for RegisterEffect {
    type V = EffectView;

    open spec fn view(&self) -> EffectView {
        match self {
            RegisterEffect::StoreRid { rid } => EffectView::StoreRid { rid: *rid },
            RegisterEffect::StoreSector { sector_idx, sector } => EffectView::StoreSector {
                sector_idx: *sector_idx,
                data: sector.0@,
                timestamp: sector.1,
                write_rank: sector.2,
            },
            RegisterEffect::Broadcast(b) => EffectView::Broadcast { cmd: b.cmd@ },
            RegisterEffect::Send(s) => EffectView::Send { cmd: s.cmd@, target: s.target },
            RegisterEffect::Complete(op) => EffectView::Complete { op: op@ },
        }
    }
}

/// The effects of a step, each as its view.
pub open spec fn effects_view(effects: Seq<RegisterEffect>) -> Seq<EffectView> {
    Seq::new(effects.len(), |i: int| effects[i]@)
}

/// A phase of an operation: in the read phase the processes are asked for
/// what they hold, in the write phase a value is imposed on them.
#[derive(Debug, Clone, Copy, PartialEq, Eq, Structural)]
pub enum Phase {
    Read,
    Write,
}

/// The effect answers the client.
pub open spec fn answers_client(effect: EffectView) -> bool {
    effect is Complete
}

/// The effect imposes a value on every process.
pub open spec fn imposes(effect: EffectView) -> bool {
    effect matches EffectView::Broadcast { cmd } && cmd.content is WriteProc
}

/// The phase that a step has ended, by what it asks for: the write phase
/// where it answers the client, the read phase where it imposes a value,
/// none otherwise.
pub open spec fn spec_ended_phase(effects: Seq<EffectView>) -> Option<Phase> {
    if exists|i: int| 0 <= i < effects.len() && answers_client(#[trigger] effects[i]) {
        Some(Phase::Write)
    } else if exists|i: int| 0 <= i < effects.len() && imposes(#[trigger] effects[i]) {
        Some(Phase::Read)
    } else {
        None
    }
}

/// The phase that a step has ended, by what it asks for. The messages of a
/// phase that has ended need no answer any more.
pub fn ended_phase(effects: &Vec<RegisterEffect>) -> (r: Option<Phase>)
    ensures
        r == spec_ended_phase(effects_view(effects@)),
{
    let mut answered = false;
    let mut imposed = false;
    let mut k: usize = 0;
    while k < effects.len()
        invariant
            k <= effects@.len(),
            answered == exists|i: int|
                0 <= i < k && answers_client(#[trigger] effects_view(effects@)[i]),
            imposed == exists|i: int| 0 <= i < k && imposes(#[trigger] effects_view(effects@)[i]),
        decreases effects@.len() - k,
    {
        let ghost all = effects_view(effects@);
        match &effects[k] {
            RegisterEffect::Complete(_) => {
                answered = true;
                assert(answers_client(all[k as int]));
            },
            RegisterEffect::Broadcast(msg) => {
                match &msg.cmd.content {
                    SystemRegisterCommandContent::WriteProc { .. } => {
                        imposed = true;
                        assert(imposes(all[k as int]));
                    },
                    _ => {
                        assert(!imposes(all[k as int]));
                    },
                }
                assert(!answers_client(all[k as int]));
            },
            _ => {
                assert(!answers_client(all[k as int]));
                assert(!imposes(all[k as int]));
            },
        }
        k = k + 1;
    }
    if answered {
        Some(Phase::Write)
    } else if imposed {
        Some(Phase::Read)
    } else {
        None
    }
}

/// A sector as a process holds it: timestamp, write rank, data.
pub type Stamped = (u64, u8, Seq<u8>);

/// `(ts, wr)` is later than `(other_ts, other_wr)`: timestamps decide, ranks
/// break ties.
pub open spec fn later(ts: u64, wr: u8, other_ts: u64, other_wr: u8) -> bool {
    ts > other_ts || (ts == other_ts && wr > other_wr)
}

/// The state of a register.
pub struct RegisterModel {
    /// Rank of the process, from 1.
    pub self_ident: u8,
    /// Number of processes.
    pub processes_count: usize,
    /// Identifier of the last operation started here.
    pub rid: u64,
    /// Timestamp and write rank of every sector recovered so far.
    pub stamps: Map<u64, (u64, u8)>,
    /// What processes have answered in the read phase, by rank.
    pub readlist: Map<u8, Stamped>,
    /// Who has acknowledged in the write phase.
    pub acklist: Set<u8>,
    /// The value that the read phase chose.
    pub readval: Seq<u8>,
    /// The value that the outstanding write carries.
    pub writeval: Seq<u8>,
    pub reading: bool,
    pub writing: bool,
    pub write_phase: bool,
    /// A client waits for an answer.
    pub pending: bool,
    /// The request of the client that waits, or waited last.
    pub request_identifier: u64,
}

/// The latest of the answers of the ranks below `n`, the lowest rank first
/// among equals; a sector of zeros that was never written where none is
/// later than that.
pub open spec fn latest_below(readlist: Map<u8, Stamped>, n: nat) -> Stamped
    decreases n,
{
    if n == 0 {
        (0u64, 0u8, zero_sector())
    } else {
        let best = latest_below(readlist, (n - 1) as nat);
        let q = (n - 1) as u8;
        if readlist.dom().contains(q) && later(readlist[q].0, readlist[q].1, best.0, best.1) {
            readlist[q]
        } else {
            best
        }
    }
}

/// The latest of the answers in `readlist`; a sector of zeros that was never
/// written where no answer is later than that.
pub open spec fn latest(readlist: Map<u8, Stamped>) -> Stamped {
    latest_below(readlist, 256)
}

/// More than half of the processes.
pub open spec fn majority(count: nat, processes_count: usize) -> bool {
    count > processes_count / 2
}

/// A system message of this process.
pub open spec fn message_from(
    m: RegisterModel,
    msg_ident: u128,
    read_ident: u64,
    sector_idx: u64,
    content: SystemContentView,
) -> SystemCommandView {
    SystemCommandView {
        header: SystemCommandHeader {
            process_identifier: m.self_ident,
            msg_ident,
            read_ident,
            sector_idx,
        },
        content,
    }
}

/// A client command starts an operation: the read identifier grows and is
/// stored, the lists are emptied, and every process is asked for its value.
pub open spec fn client_step(m: RegisterModel, cmd: ClientCommandView, msg_ident: u128) -> (
    RegisterModel,
    Seq<EffectView>,
) {
    let rid = (m.rid + 1) as u64;
    let started = RegisterModel {
        rid,
        readlist: Map::empty(),
        acklist: Set::empty(),
        pending: true,
        request_identifier: cmd.header.request_identifier,
        ..m
    };
    let next = match cmd.content {
        ClientContentView::Read => RegisterModel { reading: true, ..started },
        ClientContentView::Write { data } => RegisterModel {
            writing: true,
            writeval: data,
            ..started
        },
    };
    (
        next,
        seq![
            EffectView::StoreRid { rid },
            EffectView::Broadcast {
                cmd: message_from(
                    m,
                    msg_ident,
                    rid,
                    cmd.header.sector_idx,
                    SystemContentView::ReadProc,
                ),
            },
        ],
    )
}

/// `ReadProc`: the process answers with what it holds.
pub open spec fn on_read_proc(
    m: RegisterModel,
    h: SystemCommandHeader,
    stored: Seq<u8>,
    msg_ident: u128,
) -> (RegisterModel, Seq<EffectView>) {
    let stamp = m.stamps[h.sector_idx];
    (
        m,
        seq![
            EffectView::Send {
                cmd: message_from(
                    m,
                    msg_ident,
                    h.read_ident,
                    h.sector_idx,
                    SystemContentView::Value {
                        timestamp: stamp.0,
                        write_rank: stamp.1,
                        sector_data: stored,
                    },
                ),
                target: h.process_identifier as usize,
            },
        ],
    )
}

/// A `Value` counts: it answers the operation that is under way, and the
/// read phase is not over.
pub open spec fn value_counts(m: RegisterModel, h: SystemCommandHeader) -> bool {
    h.read_ident == m.rid && !m.write_phase
}

/// A `Value` that counts ends the read phase: with it a majority has
/// answered, and an operation is under way.
pub open spec fn ends_read_phase(m: RegisterModel, h: SystemCommandHeader) -> bool {
    value_counts(m, h) && majority(m.readlist.dom().insert(h.process_identifier).len(), m.processes_count)
        && (m.reading || m.writing)
}

/// `Value`: the answer is noted. Where it ends the read phase, the process
/// adds what it holds itself, takes the latest of all answers, and imposes
/// it: as it is for a read; with the next timestamp, its own rank and the
/// client's value, stored first, for a write.
pub open spec fn on_value(
    m: RegisterModel,
    h: SystemCommandHeader,
    answer: Stamped,
    stored: Seq<u8>,
    msg_ident: u128,
) -> (RegisterModel, Seq<EffectView>) {
    if !value_counts(m, h) {
        (m, Seq::<EffectView>::empty())
    } else if !ends_read_phase(m, h) {
        (
            RegisterModel { readlist: m.readlist.insert(h.process_identifier, answer), ..m },
            Seq::<EffectView>::empty(),
        )
    } else {
        let stamp = m.stamps[h.sector_idx];
        let heard = m.readlist.insert(h.process_identifier, answer).insert(
            m.self_ident,
            (stamp.0, stamp.1, stored),
        );
        let top = latest(heard);
        let chosen = RegisterModel {
            readval: top.2,
            readlist: Map::empty(),
            acklist: Set::empty(),
            write_phase: true,
            ..m
        };
        if m.reading {
            (
                chosen,
                seq![
                    EffectView::Broadcast {
                        cmd: message_from(
                            m,
                            msg_ident,
                            m.rid,
                            h.sector_idx,
                            SystemContentView::WriteProc {
                                timestamp: top.0,
                                write_rank: top.1,
                                data_to_write: top.2,
                            },
                        ),
                    },
                ],
            )
        } else {
            let timestamp = (top.0 + 1) as u64;
            (
                RegisterModel {
                    stamps: m.stamps.insert(h.sector_idx, (timestamp, m.self_ident)),
                    ..chosen
                },
                seq![
                    EffectView::StoreSector {
                        sector_idx: h.sector_idx,
                        data: m.writeval,
                        timestamp,
                        write_rank: m.self_ident,
                    },
                    EffectView::Broadcast {
                        cmd: message_from(
                            m,
                            msg_ident,
                            m.rid,
                            h.sector_idx,
                            SystemContentView::WriteProc {
                                timestamp,
                                write_rank: m.self_ident,
                                data_to_write: m.writeval,
                            },
                        ),
                    },
                ],
            )
        }
    }
}

/// `WriteProc`: a value later than the one held replaces it and is stored;
/// then the sender gets its `Ack`.
pub open spec fn on_write_proc(
    m: RegisterModel,
    h: SystemCommandHeader,
    imposed: Stamped,
    msg_ident: u128,
) -> (RegisterModel, Seq<EffectView>) {
    let stamp = m.stamps[h.sector_idx];
    let ack = EffectView::Send {
        cmd: message_from(m, msg_ident, h.read_ident, h.sector_idx, SystemContentView::Ack),
        target: h.process_identifier as usize,
    };
    if later(imposed.0, imposed.1, stamp.0, stamp.1) {
        (
            RegisterModel { stamps: m.stamps.insert(h.sector_idx, (imposed.0, imposed.1)), ..m },
            seq![
                EffectView::StoreSector {
                    sector_idx: h.sector_idx,
                    data: imposed.2,
                    timestamp: imposed.0,
                    write_rank: imposed.1,
                },
                ack,
            ],
        )
    } else {
        (m, seq![ack])
    }
}

/// An `Ack` counts: it answers the operation that is under way, in its write
/// phase.
pub open spec fn ack_counts(m: RegisterModel, h: SystemCommandHeader) -> bool {
    h.read_ident == m.rid && m.write_phase
}

/// An `Ack` that counts ends the operation: with it a majority has
/// acknowledged, and an operation is under way.
pub open spec fn ends_operation(m: RegisterModel, h: SystemCommandHeader) -> bool {
    ack_counts(m, h) && majority(m.acklist.insert(h.process_identifier).len(), m.processes_count)
        && (m.reading || m.writing)
}

/// The answer that ends the operation under way: the chosen value for a
/// read, nothing for a write.
pub open spec fn completion(m: RegisterModel) -> OperationCompleteView {
    OperationCompleteView {
        status_code: StatusCode::Success,
        request_identifier: m.request_identifier,
        op_return: if m.reading {
            OperationReturnView::Read { read_data: Some(m.readval) }
        } else {
            OperationReturnView::Write
        },
    }
}

/// `Ack`: the acknowledgement is noted. Where it ends the operation, the
/// write phase is over and the client that waits is answered.
pub open spec fn on_ack(m: RegisterModel, h: SystemCommandHeader) -> (
    RegisterModel,
    Seq<EffectView>,
) {
    if !ack_counts(m, h) {
        (m, Seq::<EffectView>::empty())
    } else if !ends_operation(m, h) {
        (
            RegisterModel { acklist: m.acklist.insert(h.process_identifier), ..m },
            Seq::<EffectView>::empty(),
        )
    } else {
        (
            RegisterModel {
                acklist: Set::empty(),
                write_phase: false,
                reading: false,
                writing: if m.reading {
                    m.writing
                } else {
                    false
                },
                pending: false,
                ..m
            },
            if m.pending {
                seq![EffectView::Complete { op: completion(m) }]
            } else {
                Seq::<EffectView>::empty()
            },
        )
    }
}

/// The step needs the sector as it stands on disk: to answer a `ReadProc`,
/// and to end the read phase.
pub open spec fn needs_stored(m: RegisterModel, cmd: SystemCommandView) -> bool {
    cmd.content is ReadProc || (cmd.content is Value && ends_read_phase(m, cmd.header))
}

/// The step would give a write a timestamp beyond `u64`.
pub open spec fn timestamp_overflows(
    m: RegisterModel,
    cmd: SystemCommandView,
    stored: Seq<u8>,
) -> bool {
    &&& cmd.content matches SystemContentView::Value { timestamp, write_rank, sector_data }
    &&& ends_read_phase(m, cmd.header)
    &&& !m.reading
    &&& latest(
        m.readlist.insert(cmd.header.process_identifier, (timestamp, write_rank, sector_data)).insert(
            m.self_ident,
            (m.stamps[cmd.header.sector_idx].0, m.stamps[cmd.header.sector_idx].1, stored),
        ),
    ).0 == u64::MAX
}

/// What a system command does to a register and asks of the worker.
/// `stored` is the sector's data on disk; it matters where
/// [`needs_stored`] holds.
pub open spec fn system_step(
    m: RegisterModel,
    cmd: SystemCommandView,
    stored: Seq<u8>,
    msg_ident: u128,
) -> (RegisterModel, Seq<EffectView>) {
    match cmd.content {
        SystemContentView::ReadProc => on_read_proc(m, cmd.header, stored, msg_ident),
        SystemContentView::Value { timestamp, write_rank, sector_data } => on_value(
            m,
            cmd.header,
            (timestamp, write_rank, sector_data),
            stored,
            msg_ident,
        ),
        SystemContentView::WriteProc { timestamp, write_rank, data_to_write } => on_write_proc(
            m,
            cmd.header,
            (timestamp, write_rank, data_to_write),
            msg_ident,
        ),
        SystemContentView::Ack => on_ack(m, cmd.header),
    }
}

/// A register as it is built: nothing recovered, nothing under way.
pub open spec fn initial_model(self_ident: u8, processes_count: usize, rid: u64) -> RegisterModel {
    RegisterModel {
        self_ident,
        processes_count,
        rid,
        stamps: Map::empty(),
        readlist: Map::empty(),
        acklist: Set::empty(),
        readval: zero_sector(),
        writeval: zero_sector(),
        reading: false,
        writing: false,
        write_phase: false,
        pending: false,
        request_identifier: 0,
    }
}

/// The answers of a read phase, each with its sector as a sequence.
pub open spec fn answers(readlist: Map<u8, (u64, u8, SectorVec)>) -> Map<u8, Stamped> {
    Map::new(
        |q: u8| readlist.dom().contains(q),
        |q: u8| (readlist[q].0, readlist[q].1, readlist[q].2@),
    )
}

/// Why a register did not take a step.
#[derive(Debug, Clone, Copy, PartialEq, Eq, Structural)]
pub enum RegisterError {
    /// The sector of the command has not been recovered.
    NotRecovered,
    /// The step needs the sector's data on disk, and none was given.
    MissingSector,
    /// A write would need a timestamp beyond `u64`.
    TimestampExhausted,
    /// An operation would need a read identifier beyond `u64`.
    RidExhausted,
    /// A client waits for its answer: the register serves one client at a
    /// time.
    Busy,
}

/// What a client command does: [`client_step`], unless a client waits for
/// its answer or the read identifier cannot grow. A command that is refused
/// leaves the register as it was, so that the client that waits gets its
/// answer.
pub open spec fn client_outcome(m: RegisterModel, cmd: ClientCommandView, msg_ident: u128) -> (
    RegisterModel,
    Result<Seq<EffectView>, RegisterError>,
) {
    if m.pending {
        (m, Err(RegisterError::Busy))
    } else if m.rid == u64::MAX {
        (m, Err(RegisterError::RidExhausted))
    } else {
        (client_step(m, cmd, msg_ident).0, Ok(client_step(m, cmd, msg_ident).1))
    }
}

/// The answers of a read phase that `cmd` ends, with what the process holds
/// itself.
pub open spec fn all_answers(m: RegisterModel, cmd: SystemCommandView, stored: Seq<u8>) -> Map<
    u8,
    Stamped,
> {
    let answer = match cmd.content {
        SystemContentView::Value { timestamp, write_rank, sector_data } => (
            timestamp,
            write_rank,
            sector_data,
        ),
        _ => (0u64, 0u8, Seq::<u8>::empty()),
    };
    m.readlist.insert(cmd.header.process_identifier, answer).insert(
        m.self_ident,
        (m.stamps[cmd.header.sector_idx].0, m.stamps[cmd.header.sector_idx].1, stored),
    )
}

/// What a system command does: [`system_step`], unless the sector was not
/// recovered, its data is needed and missing, or a write finds no timestamp
/// left. In the last case the answers stay noted and nothing else happens.
pub open spec fn system_outcome(
    m: RegisterModel,
    cmd: SystemCommandView,
    stored: Option<Seq<u8>>,
    msg_ident: u128,
) -> (RegisterModel, Result<Seq<EffectView>, RegisterError>) {
    let data = match stored {
        Some(d) => d,
        None => Seq::<u8>::empty(),
    };
    if !m.stamps.dom().contains(cmd.header.sector_idx) {
        (m, Err(RegisterError::NotRecovered))
    } else if needs_stored(m, cmd) && stored is None {
        (m, Err(RegisterError::MissingSector))
    } else if timestamp_overflows(m, cmd, data) {
        (
            RegisterModel { readlist: all_answers(m, cmd, data), ..m },
            Err(RegisterError::TimestampExhausted),
        )
    } else {
        (system_step(m, cmd, data, msg_ident).0, Ok(system_step(m, cmd, data, msg_ident).1))
    }
}

/// The sector's data on disk, where it was read, as a sequence.
pub open spec fn stored_view(stored: Option<SectorVec>) -> Option<Seq<u8>> {
    match stored {
        Some(d) => Some(d@),
        None => None,
    }
}

/// The result of a step, each effect as its view.
pub open spec fn outcome_view(r: Result<Vec<RegisterEffect>, RegisterError>) -> Result<
    Seq<EffectView>,
    RegisterError,
> {
    match r {
        Ok(effects) => Ok(effects_view(effects@)),
        Err(e) => Err(e),
    }
}

/// `Uuid::new_v4`: the 128 bits of a random UUID, for a message of this
/// process. Nothing is promised of them. It panics where the system gives no
/// random bytes.
#[verifier::external_body]
fn fresh_msg_ident() -> (msg_ident: u128) {
    Uuid::new_v4().as_u128()
}

/// The latest of the answers in `readlist`; a sector of zeros that was never
/// written where no answer is later than that.
pub fn highest(readlist: &HashMap<u8, (u64, u8, SectorVec)>) -> (r: (u64, u8, SectorVec))
    ensures
        (r.0, r.1, r.2@) == latest(answers(readlist@)),
{
    let mut ret = (0u64, 0u8, empty_sector());
    let mut n: u16 = 0;
    while n < 256
        invariant
            n <= 256,
            (ret.0, ret.1, ret.2@) == latest_below(answers(readlist@), n as nat),
        decreases 256 - n,
    {
        let q = n as u8;
        match readlist.get(&q) {
            Some(curr) => {
                if curr.0 > ret.0 || (curr.0 == ret.0 && curr.1 > ret.1) {
                    ret = (curr.0, curr.1, curr.2.duplicate());
                }
            },
            None => {},
        }
        n = n + 1;
    }
    ret
}

/// The atomic register of one worker.
pub struct MyAtomicRegister {
    self_ident: u8,
    processes_count: usize,
    rid: u64,
    stamps: HashMap<u64, (u64, u8)>,
    readlist: HashMap<u8, (u64, u8, SectorVec)>,
    acklist: HashSet<u8>,
    readval: SectorVec,
    writeval: SectorVec,
    reading: bool,
    writing: bool,
    write_phase: bool,
    operation_pending: bool,
    request_identifier: u64,
}

impl View for MyAtomicRegister {
    type V = RegisterModel;

    closed spec fn view(&self) -> RegisterModel {
        RegisterModel {
            self_ident: self.self_ident,
            processes_count: self.processes_count,
            rid: self.rid,
            stamps: self.stamps@,
            readlist: answers(self.readlist@),
            acklist: self.acklist@,
            readval: self.readval@,
            writeval: self.writeval@,
            reading: self.reading,
            writing: self.writing,
            write_phase: self.write_phase,
            pending: self.operation_pending,
            request_identifier: self.request_identifier,
        }
    }
}

/// The answers come from the ranks that the list holds.
proof fn lemma_answers_dom(readlist: Map<u8, (u64, u8, SectorVec)>)
    ensures
        answers(readlist).dom() == readlist.dom(),
{
    assert(answers(readlist).dom() =~= readlist.dom());
}

/// An answer that is put on the list is put among the answers.
proof fn lemma_answers_insert(
    readlist: Map<u8, (u64, u8, SectorVec)>,
    q: u8,
    entry: (u64, u8, SectorVec),
)
    ensures
        answers(readlist.insert(q, entry)) == answers(readlist).insert(
            q,
            (entry.0, entry.1, entry.2@),
        ),
        answers(readlist).dom() == readlist.dom(),
{
    assert(answers(readlist.insert(q, entry)) =~= answers(readlist).insert(
        q,
        (entry.0, entry.1, entry.2@),
    ));
    assert(answers(readlist).dom() =~= readlist.dom());
}

impl MyAtomicRegister {
    /// Whether the sector's timestamp and write rank have been recovered.
    pub fn is_recovered(&self, sector_idx: u64) -> (r: bool)
        ensures
            r == self@.stamps.dom().contains(sector_idx),
    {
        self.stamps.contains_key(&sector_idx)
    }

    /// Notes the timestamp and the write rank that the disk holds for a
    /// sector, at its first use. A sector that was recovered before keeps
    /// what the register holds for it.
    pub fn recover_sector(&mut self, sector_idx: u64, timestamp: u64, write_rank: u8)
        ensures
            old(self)@.stamps.dom().contains(sector_idx) ==> final(self)@ == old(self)@,
            !old(self)@.stamps.dom().contains(sector_idx) ==> final(self)@ == (RegisterModel {
                stamps: old(self)@.stamps.insert(sector_idx, (timestamp, write_rank)),
                ..old(self)@
            }),
    {
        if self.stamps.contains_key(&sector_idx) {
            return ;
        }
        self.stamps.insert(sector_idx, (timestamp, write_rank));
    }

    /// Whether a client waits for the answer to its command. A register
    /// serves one client at a time: a command that is handed to a register
    /// while another client waits is refused.
    pub fn is_pending(&self) -> (r: bool)
        ensures
            r == self@.pending,
    {
        self.operation_pending
    }

    /// Whether the step for `cmd` needs the sector's data on disk.
    pub fn needs_sector_data(&self, cmd: &SystemRegisterCommand) -> (r: bool)
        ensures
            r == needs_stored(self@, cmd@),
    {
        match &cmd.content {
            SystemRegisterCommandContent::ReadProc => true,
            SystemRegisterCommandContent::Value { .. } => {
                let q = cmd.header.process_identifier;
                if cmd.header.read_ident == self.rid && !self.write_phase && (self.reading
                    || self.writing) {
                    proof {
                        lemma_answers_dom(self.readlist@);
                        assert(self.readlist@.dom().finite());
                    }
                    let half = self.processes_count / 2;
                    if self.readlist.contains_key(&q) {
                        assert(self.readlist@.dom().insert(q) =~= self.readlist@.dom());
                        self.readlist.len() > half
                    } else {
                        self.readlist.len() >= half
                    }
                } else {
                    false
                }
            },
            _ => false,
        }
    }

    /// A system message of this process.
    fn message(
        &self,
        msg_ident: u128,
        read_ident: u64,
        sector_idx: u64,
        content: SystemRegisterCommandContent,
    ) -> (r: Arc<SystemRegisterCommand>)
        ensures
            r@ == message_from(self@, msg_ident, read_ident, sector_idx, content@),
    {
        Arc::new(
            SystemRegisterCommand {
                header: SystemCommandHeader {
                    process_identifier: self.self_ident,
                    msg_ident,
                    read_ident,
                    sector_idx,
                },
                content,
            },
        )
    }

    /// Takes the step of a client command, with `msg_ident` for the message
    /// that it sends. While a client waits for its answer the command is
    /// refused, and the register stays as it is.
    pub fn apply_client_command(&mut self, cmd: ClientRegisterCommand, msg_ident: u128) -> (r:
        Result<Vec<RegisterEffect>, RegisterError>)
        ensures
            (final(self)@, outcome_view(r)) == client_outcome(old(self)@, cmd@, msg_ident),
    {
        if self.operation_pending {
            return Err(RegisterError::Busy);
        }
        if self.rid == u64::MAX {
            return Err(RegisterError::RidExhausted);
        }
        let sector_idx = cmd.header.sector_idx;
        self.request_identifier = cmd.header.request_identifier;
        self.operation_pending = true;
        self.rid = self.rid + 1;
        self.readlist = HashMap::new();
        self.acklist = HashSet::new();
        match cmd.content {
            ClientRegisterCommandContent::Read => {
                self.reading = true;
            },
            ClientRegisterCommandContent::Write { data } => {
                self.writeval = data;
                self.writing = true;
            },
        }
        let mut effects: Vec<RegisterEffect> = Vec::new();
        effects.push(RegisterEffect::StoreRid { rid: self.rid });
        effects.push(
            RegisterEffect::Broadcast(
                Broadcast {
                    cmd: self.message(
                        msg_ident,
                        self.rid,
                        sector_idx,
                        SystemRegisterCommandContent::ReadProc,
                    ),
                },
            ),
        );
        proof {
            let expected = client_step(old(self)@, cmd@, msg_ident);
            assert(answers(self.readlist@) =~= Map::<u8, Stamped>::empty());
            assert(final(self)@ == expected.0);
            assert(effects_view(effects@) =~= expected.1);
        }
        Ok(effects)
    }

    /// Takes the step of a system command, with `stored` for the sector's
    /// data on disk and `msg_ident` for the message that it sends.
    pub fn apply_system_command(
        &mut self,
        cmd: SystemRegisterCommand,
        stored: Option<SectorVec>,
        msg_ident: u128,
    ) -> (r: Result<Vec<RegisterEffect>, RegisterError>)
        ensures
            (final(self)@, outcome_view(r)) == system_outcome(
                old(self)@,
                cmd@,
                stored_view(stored),
                msg_ident,
            ),
    {
        let sector_idx = cmd.header.sector_idx;
        let r = cmd.header.read_ident;
        let q = cmd.header.process_identifier;
        let stamp = match self.stamps.get(&sector_idx) {
            Some(s) => *s,
            None => {
                return Err(RegisterError::NotRecovered);
            },
        };
        let ends_phase = self.needs_sector_data(&cmd);
        if ends_phase && stored.is_none() {
            return Err(RegisterError::MissingSector);
        }
        let ghost data = match &stored {
            Some(d) => d@,
            None => Seq::<u8>::empty(),
        };
        let ghost expected = system_step(old(self)@, cmd@, data, msg_ident);
        let mut effects: Vec<RegisterEffect> = Vec::new();
        match cmd.content {
            SystemRegisterCommandContent::ReadProc => {
                let val = match stored {
                    Some(d) => d,
                    None => empty_sector(),
                };
                effects.push(
                    RegisterEffect::Send(
                        Send {
                            cmd: self.message(
                                msg_ident,
                                r,
                                sector_idx,
                                SystemRegisterCommandContent::Value {
                                    timestamp: stamp.0,
                                    write_rank: stamp.1,
                                    sector_data: val,
                                },
                            ),
                            target: q as usize,
                        },
                    ),
                );
                assert(effects_view(effects@) =~= expected.1);
            },
            SystemRegisterCommandContent::Value { timestamp, write_rank, sector_data } => {
                if r == self.rid && !self.write_phase {
                    proof {
                        lemma_answers_insert(
                            self.readlist@,
                            q,
                            (timestamp, write_rank, sector_data),
                        );
                    }
                    self.readlist.insert(q, (timestamp, write_rank, sector_data));
                    if ends_phase {
                        let val = match stored {
                            Some(d) => d,
                            None => empty_sector(),
                        };
                        proof {
                            lemma_answers_insert(
                                self.readlist@,
                                self.self_ident,
                                (stamp.0, stamp.1, val),
                            );
                        }
                        self.readlist.insert(self.self_ident, (stamp.0, stamp.1, val));
                        let (maxts, rr, readval) = highest(&self.readlist);
                        if !self.reading && maxts == u64::MAX {
                            return Err(RegisterError::TimestampExhausted);
                        }
                        self.readval = readval;
                        self.readlist = HashMap::new();
                        self.acklist = HashSet::new();
                        self.write_phase = true;
                        assert(answers(self.readlist@) =~= Map::<u8, Stamped>::empty());
                        if self.reading {
                            let imposed = self.readval.duplicate();
                            effects.push(
                                RegisterEffect::Broadcast(
                                    Broadcast {
                                        cmd: self.message(
                                            msg_ident,
                                            self.rid,
                                            sector_idx,
                                            SystemRegisterCommandContent::WriteProc {
                                                timestamp: maxts,
                                                write_rank: rr,
                                                data_to_write: imposed,
                                            },
                                        ),
                                    },
                                ),
                            );
                        } else {
                            let ts = maxts + 1;
                            let wr = self.self_ident;
                            self.stamps.insert(sector_idx, (ts, wr));
                            effects.push(
                                RegisterEffect::StoreSector {
                                    sector_idx,
                                    sector: (self.writeval.duplicate(), ts, wr),
                                },
                            );
                            let imposed = self.writeval.duplicate();
                            effects.push(
                                RegisterEffect::Broadcast(
                                    Broadcast {
                                        cmd: self.message(
                                            msg_ident,
                                            self.rid,
                                            sector_idx,
                                            SystemRegisterCommandContent::WriteProc {
                                                timestamp: ts,
                                                write_rank: wr,
                                                data_to_write: imposed,
                                            },
                                        ),
                                    },
                                ),
                            );
                        }
                    }
                }
                assert(effects_view(effects@) =~= expected.1);
            },
            SystemRegisterCommandContent::WriteProc { timestamp, write_rank, data_to_write } => {
                if timestamp > stamp.0 || (timestamp == stamp.0 && write_rank > stamp.1) {
                    self.stamps.insert(sector_idx, (timestamp, write_rank));
                    effects.push(
                        RegisterEffect::StoreSector {
                            sector_idx,
                            sector: (data_to_write, timestamp, write_rank),
                        },
                    );
                }
                effects.push(
                    RegisterEffect::Send(
                        Send {
                            cmd: self.message(
                                msg_ident,
                                r,
                                sector_idx,
                                SystemRegisterCommandContent::Ack,
                            ),
                            target: q as usize,
                        },
                    ),
                );
                assert(effects_view(effects@) =~= expected.1);
            },
            SystemRegisterCommandContent::Ack => {
                if r == self.rid && self.write_phase {
                    self.acklist.insert(q);
                    if self.acklist.len() > self.processes_count / 2 && (self.reading
                        || self.writing) {
                        self.acklist = HashSet::new();
                        self.write_phase = false;
                        let op_return = if self.reading {
                            OperationReturn::Read(
                                ReadReturn { read_data: Some(self.readval.duplicate()) },
                            )
                        } else {
                            OperationReturn::Write
                        };
                        if self.reading {
                            self.reading = false;
                        } else {
                            self.writing = false;
                        }
                        if self.operation_pending {
                            self.operation_pending = false;
                            effects.push(
                                RegisterEffect::Complete(
                                    OperationComplete {
                                        status_code: StatusCode::Success,
                                        request_identifier: self.request_identifier,
                                        op_return,
                                    },
                                ),
                            );
                        }
                    }
                }
                assert(effects_view(effects@) =~= expected.1);
            },
        }
        Ok(effects)
    }
}

/// A register as a worker drives it: command by command, each step
/// handing back what is to be done for it.
pub trait AtomicRegister {
    /// Takes the step of a client command.
    fn client_command(&mut self, cmd: ClientRegisterCommand) -> (r: Result<
        Vec<RegisterEffect>,
        RegisterError,
    >);

    /// Takes the step of a system command, with `stored` for the sector's
    /// data on disk.
    fn system_command(&mut self, cmd: SystemRegisterCommand, stored: Option<SectorVec>) -> (r:
        Result<Vec<RegisterEffect>, RegisterError>);
}

impl AtomicRegister for MyAtomicRegister {
    /// Takes the step of a client command. The message that it sends gets a
    /// fresh identifier.
    fn client_command(&mut self, cmd: ClientRegisterCommand) -> (r: Result<
        Vec<RegisterEffect>,
        RegisterError,
    >)
        ensures
            exists|msg_ident: u128|
                (final(self)@, outcome_view(r)) == #[trigger] client_outcome(
                    old(self)@,
                    cmd@,
                    msg_ident,
                ),
    {
        let msg_ident = fresh_msg_ident();
        self.apply_client_command(cmd, msg_ident)
    }

    /// Takes the step of a system command, with `stored` for the sector's
    /// data on disk. The message that it sends gets a fresh identifier.
    fn system_command(&mut self, cmd: SystemRegisterCommand, stored: Option<SectorVec>) -> (r:
        Result<Vec<RegisterEffect>, RegisterError>)
        ensures
            exists|msg_ident: u128|
                (final(self)@, outcome_view(r)) == #[trigger] system_outcome(
                    old(self)@,
                    cmd@,
                    stored_view(stored),
                    msg_ident,
                ),
    {
        let msg_ident = fresh_msg_ident();
        self.apply_system_command(cmd, stored, msg_ident)
    }
}

/// Builds the register of the process `self_ident` among `processes_count`.
/// `stored_rid` is what the metadata store holds under [`RID_KEY`]: the read
/// identifier in eight big-endian bytes, or nothing, which stands for 0.
pub fn build_atomic_register(
    self_ident: u8,
    stored_rid: Option<Vec<u8>>,
    processes_count: usize,
) -> (r: MyAtomicRegister)
    requires
        stored_rid matches Some(bytes) ==> bytes@.len() == 8,
    ensures
        r@ == initial_model(
            self_ident,
            processes_count,
            match stored_rid {
                Some(bytes) => be_value(bytes@) as u64,
                None => 0,
            },
        ),
{
    let rid = match &stored_rid {
        Some(bytes) => {
            assert(bytes@.subrange(0, 8) =~= bytes@);
            u64_from_be_bytes(bytes.as_slice(), 0)
        },
        None => 0,
    };
    let r = MyAtomicRegister {
        self_ident,
        processes_count,
        rid,
        stamps: HashMap::new(),
        readlist: HashMap::new(),
        acklist: HashSet::new(),
        readval: empty_sector(),
        writeval: empty_sector(),
        reading: false,
        writing: false,
        write_phase: false,
        operation_pending: false,
        request_identifier: 0u64,
    };
    assert(answers(r.readlist@) =~= Map::<u8, Stamped>::empty());
    r
}

/// The key under which the read identifier is stored.
pub const RID_KEY: &'static str = "rid";

/// The bytes that are stored for the read identifier `rid`.
pub fn rid_record(rid: u64) -> (r: [u8; 8])
    ensures
        r@ == u64_be(rid),
{
    u64_to_be_bytes(rid)
}

} // verus!
