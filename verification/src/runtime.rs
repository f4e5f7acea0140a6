//! The process runtime: which configuration it accepts, and what it does
//! with each command that a connection brings.

use crate::ascii::{ascii_chars, ascii_string};
use crate::domain::{
    ClientCommandView, ClientContentView, ClientRegisterCommand, ClientRegisterCommandContent,
    OperationComplete, OperationCompleteView, OperationReturn, OperationReturnView, ReadReturn,
    RegisterCommand, RegisterCommandView, StatusCode, SystemCommandView, SystemRegisterCommand,
};
use crate::sectors::{decimal, decimal_digits, get_worker_id, lemma_decimal, WORKERS_COUNT};
use crate::transfer::{
    decode_at, deserialize_register_command, find_frame_start, frame_start, magic_at, no_frame,
    taken_at, TransferError,
};
use crate::transfer_laws::lemma_resync;
use vstd::prelude::*;

verus! {

/// Why a process does not start.
#[derive(Debug, Clone, Copy, PartialEq, Eq, Structural)]
pub enum ConfigError {
    /// There is no location, or there are more than ranks of one byte.
    ProcessCount,
    /// The rank of the process is not among those of the locations.
    SelfRank,
    /// There is no sector.
    MaxSector,
}

/// The largest number of processes: ranks are bytes from 1 up.
pub const MAX_PROCESSES: usize = 255;

/// What is wrong with a configuration, if anything: the number of
/// locations first, then the rank, then the number of sectors.
pub open spec fn spec_check_configuration(locations: usize, self_rank: u8, max_sector: u64)
    -> Result<(), ConfigError> {
    if locations == 0 || locations > MAX_PROCESSES {
        Err(ConfigError::ProcessCount)
    } else if self_rank == 0 || self_rank > locations {
        Err(ConfigError::SelfRank)
    } else if max_sector == 0 {
        Err(ConfigError::MaxSector)
    } else {
        Ok(())
    }
}

/// Checks a configuration before the process starts: `locations` is the
/// number of locations, one for each rank.
pub fn check_configuration(locations: usize, self_rank: u8, max_sector: u64) -> (r: Result<
    (),
    ConfigError,
>)
    ensures
        r == spec_check_configuration(locations, self_rank, max_sector),
{
    if locations == 0 || locations > MAX_PROCESSES {
        Err(ConfigError::ProcessCount)
    } else if self_rank == 0 || self_rank as usize > locations {
        Err(ConfigError::SelfRank)
    } else if max_sector == 0 {
        Err(ConfigError::MaxSector)
    } else {
        Ok(())
    }
}

/// Where the location of a process stands in the list of locations.
pub fn location_index(rank: u8) -> (r: usize)
    requires
        rank >= 1,
    ensures
        r == rank - 1,
{
    (rank - 1) as usize
}

/// The worker that owns a sector, as a place among the workers.
pub fn worker_of(sector_idx: u64) -> (r: usize)
    ensures
        r == sector_idx % WORKERS_COUNT,
        r < WORKERS_COUNT,
{
    get_worker_id(sector_idx) as usize
}

/// The name of the directory of a worker under the storage directory: its
/// place among the workers, in decimal.
pub fn worker_dir_name(worker: u64) -> (r: String)
    ensures
        r@ == ascii_chars(decimal(worker as nat)),
{
    let digits = decimal_digits(worker);
    proof {
        lemma_decimal(worker as nat);
    }
    ascii_string(digits)
}

/// What the runtime does with a command.
pub enum Dispatch {
    /// Hand the client's command to the worker, and answer the client when
    /// the worker is done.
    Client { worker: usize, cmd: ClientRegisterCommand },
    /// Hand the message to the worker. Nobody is answered.
    System { worker: usize, cmd: SystemRegisterCommand },
    /// Answer the client at once.
    Reply(OperationComplete),
    /// Do nothing.
    Drop,
}

/// [`Dispatch`] with its sectors as sequences.
pub enum DispatchView {
    Client { worker: usize, cmd: ClientCommandView },
    System { worker: usize, cmd: SystemCommandView },
    Reply { op: OperationCompleteView },
    Drop,
}

impl View for Dispatch {
    type V = DispatchView;

    open spec fn view(&self) -> DispatchView {
        match self {
            Dispatch::Client { worker, cmd } => DispatchView::Client { worker: *worker, cmd: cmd@ },
            Dispatch::System { worker, cmd } => DispatchView::System { worker: *worker, cmd: cmd@ },
            Dispatch::Reply(op) => DispatchView::Reply { op: op@ },
            Dispatch::Drop => DispatchView::Drop,
        }
    }
}

/// The answer to a client's command that is not carried out.
pub open spec fn refusal(cmd: ClientCommandView, status: StatusCode) -> OperationCompleteView {
    OperationCompleteView {
        status_code: status,
        request_identifier: cmd.header.request_identifier,
        op_return: match cmd.content {
            ClientContentView::Read => OperationReturnView::Read { read_data: None },
            ClientContentView::Write { .. } => OperationReturnView::Write,
        },
    }
}

/// What the runtime does with a command: a client whose frame was not
/// authentic, or whose sector does not exist, is told so; a message of a
/// process with either fault is dropped; everything else goes to the worker
/// that owns the sector.
pub open spec fn spec_dispatch(cmd: RegisterCommandView, hmac_valid: bool, max_sector: u64)
    -> DispatchView {
    match cmd {
        RegisterCommandView::Client(c) => if !hmac_valid {
            DispatchView::Reply { op: refusal(c, StatusCode::AuthFailure) }
        } else if c.header.sector_idx >= max_sector {
            DispatchView::Reply { op: refusal(c, StatusCode::InvalidSectorIndex) }
        } else {
            DispatchView::Client { worker: (c.header.sector_idx % WORKERS_COUNT) as usize, cmd: c }
        },
        RegisterCommandView::System(s) => if !hmac_valid || s.header.sector_idx >= max_sector {
            DispatchView::Drop
        } else {
            DispatchView::System { worker: (s.header.sector_idx % WORKERS_COUNT) as usize, cmd: s }
        },
    }
}

/// The answer to a client's command that is not carried out.
fn refuse(cmd: &ClientRegisterCommand, status: StatusCode) -> (r: OperationComplete)
    ensures
        r@ == refusal(cmd@, status),
{
    OperationComplete {
        status_code: status,
        request_identifier: cmd.header.request_identifier,
        op_return: match &cmd.content {
            ClientRegisterCommandContent::Read => OperationReturn::Read(
                ReadReturn { read_data: None },
            ),
            ClientRegisterCommandContent::Write { .. } => OperationReturn::Write,
        },
    }
}

/// Decides what to do with a command that was read from a connection, given
/// whether its frame was authentic.
pub fn dispatch(cmd: RegisterCommand, hmac_valid: bool, max_sector: u64) -> (r: Dispatch)
    ensures
        r@ == spec_dispatch(cmd@, hmac_valid, max_sector),
{
    match cmd {
        RegisterCommand::Client(c) => {
            if !hmac_valid {
                Dispatch::Reply(refuse(&c, StatusCode::AuthFailure))
            } else if c.header.sector_idx >= max_sector {
                Dispatch::Reply(refuse(&c, StatusCode::InvalidSectorIndex))
            } else {
                Dispatch::Client { worker: worker_of(c.header.sector_idx), cmd: c }
            }
        },
        RegisterCommand::System(s) => {
            if !hmac_valid || s.header.sector_idx >= max_sector {
                Dispatch::Drop
            } else {
                Dispatch::System { worker: worker_of(s.header.sector_idx), cmd: s }
            }
        },
    }
}

/// What the runtime makes of the bytes of a connection.
pub enum Received {
    /// A command was read; this is to be done with it.
    Command(Dispatch),
    /// A frame was malformed and is dropped; the reading goes on behind it.
    Skipped,
    /// The bytes ended; nothing more comes from them.
    End,
}

/// [`Received`] with its sectors as sequences.
pub enum ReceivedView {
    Command { dispatch: DispatchView },
    Skipped,
    End,
}

impl View for Received {
    type V = ReceivedView;

    open spec fn view(&self) -> ReceivedView {
        match self {
            Received::Command(d) => ReceivedView::Command { dispatch: d@ },
            Received::Skipped => ReceivedView::Skipped,
            Received::End => ReceivedView::End,
        }
    }
}

/// What the runtime makes of what a reader found.
pub open spec fn spec_receive(
    decoded: Result<(RegisterCommandView, bool), TransferError>,
    max_sector: u64,
) -> ReceivedView {
    match decoded {
        Ok((cmd, hmac_valid)) => ReceivedView::Command {
            dispatch: spec_dispatch(cmd, hmac_valid, max_sector),
        },
        Err(TransferError::InvalidData) => ReceivedView::Skipped,
        Err(TransferError::UnexpectedEof) => ReceivedView::End,
    }
}

/// Reads the next command from the bytes of a connection and decides what
/// to do with it. `data` is left behind what was read.
pub fn receive(
    data: &mut &[u8],
    hmac_system_key: &[u8; 64],
    hmac_client_key: &[u8; 32],
    max_sector: u64,
) -> (r: Received)
    ensures
        no_frame(old(data)@) ==> r@ == ReceivedView::End && final(data)@.len() == 0,
        forall|p: int|
            frame_start(old(data)@, p) ==> r@ == spec_receive(
                decode_at(old(data)@, p, hmac_system_key@, hmac_client_key@),
                max_sector,
            ) && final(data)@ == old(data)@.skip(taken_at(old(data)@, p)),
{
    match deserialize_register_command(data, hmac_system_key, hmac_client_key) {
        Ok((cmd, hmac_valid)) => Received::Command(dispatch(cmd, hmac_valid, max_sector)),
        Err(TransferError::InvalidData) => Received::Skipped,
        Err(TransferError::UnexpectedEof) => Received::End,
    }
}

/// What the runtime makes of the bytes that a connection has brought so
/// far.
pub enum Progress {
    /// A command was read; this is to be done with it.
    Command(Dispatch),
    /// A frame was malformed and is dropped.
    Skipped,
    /// No frame is complete yet: more bytes are needed.
    NeedMore,
}

/// [`Progress`] with its sectors as sequences.
pub enum ProgressView {
    Command { dispatch: DispatchView },
    Skipped,
    NeedMore,
}

impl View for Progress {
    type V = ProgressView;

    open spec fn view(&self) -> ProgressView {
        match self {
            Progress::Command(d) => ProgressView::Command { dispatch: d@ },
            Progress::Skipped => ProgressView::Skipped,
            Progress::NeedMore => ProgressView::NeedMore,
        }
    }
}

/// What the runtime makes of bytes whose first magic number stands at `p`,
/// and how many bytes it is done with: the frame, if it is complete; the
/// bytes up to the end of a type header that announces no command; the bytes
/// before the magic number, if the frame is not complete.
pub open spec fn spec_advance_at(
    buffer: Seq<u8>,
    p: int,
    system_key: Seq<u8>,
    client_key: Seq<u8>,
    max_sector: u64,
) -> (ProgressView, int) {
    match decode_at(buffer, p, system_key, client_key) {
        Ok((cmd, hmac_valid)) => (
            ProgressView::Command { dispatch: spec_dispatch(cmd, hmac_valid, max_sector) },
            taken_at(buffer, p),
        ),
        Err(TransferError::InvalidData) => (ProgressView::Skipped, p + 8),
        Err(TransferError::UnexpectedEof) => (ProgressView::NeedMore, p),
    }
}

/// How many bytes without a magic number the runtime is done with: all but
/// the last three, which may begin one.
pub open spec fn spec_garbage(len: int) -> int {
    if len > 3 {
        len - 3
    } else {
        0
    }
}

/// Looks for the next command in the bytes that a connection has brought so
/// far. Returns what to do and how many bytes, from the front, are done
/// with; the others are to be kept and looked at again when more have come.
pub fn advance(
    buffer: &[u8],
    hmac_system_key: &[u8; 64],
    hmac_client_key: &[u8; 32],
    max_sector: u64,
) -> (r: (Progress, usize))
    ensures
        r.1 <= buffer@.len(),
        no_frame(buffer@) ==> r.0@ == ProgressView::NeedMore && r.1 == spec_garbage(
            buffer@.len() as int,
        ),
        forall|p: int|
            frame_start(buffer@, p) ==> (r.0@, r.1 as int) == spec_advance_at(
                buffer@,
                p,
                hmac_system_key@,
                hmac_client_key@,
                max_sector,
            ),
{
    let n = buffer.len();
    let p = match find_frame_start(buffer) {
        Some(p) => p,
        None => {
            return (Progress::NeedMore, if n > 3 {
                n - 3
            } else {
                0
            });
        },
    };
    assert forall|q: int| frame_start(buffer@, q) implies q == p by {
        if q < p {
            assert(!magic_at(buffer@, q));
        }
    }
    let mut rest = vstd::slice::slice_subrange(buffer, p, n);
    let ghost tail = rest@;
    proof {
        let head = buffer@.subrange(0, p as int);
        assert forall|j: int| !magic_at(head, j) by {
            if 0 <= j && j + 4 <= head.len() {
                assert(head.subrange(j, j + 4) =~= buffer@.subrange(j, j + 4));
                assert(!magic_at(buffer@, j));
            }
        }
        assert(tail.subrange(0, 4) =~= buffer@.subrange(p as int, p + 4));
        lemma_resync(
            buffer@.subrange(0, p as int),
            tail,
            hmac_system_key@,
            hmac_client_key@,
        );
        assert(buffer@.subrange(0, p as int) + tail =~= buffer@);
    }
    match deserialize_register_command(&mut rest, hmac_system_key, hmac_client_key) {
        Ok((cmd, hmac_valid)) => {
            let taken = n - p - rest.len();
            (Progress::Command(dispatch(cmd, hmac_valid, max_sector)), p + taken)
        },
        Err(TransferError::InvalidData) => (Progress::Skipped, p + 8),
        Err(TransferError::UnexpectedEof) => (Progress::NeedMore, p),
    }
}

/// Bytes that the runtime is done with are never missed: where no frame is
/// complete yet, the first magic number of the bytes with whatever comes
/// behind them does not stand among the bytes that were given up.
pub proof fn lemma_garbage_holds_no_frame(buffer: Seq<u8>, more: Seq<u8>, p: int)
    requires
        no_frame(buffer),
        magic_at(buffer + more, p),
    ensures
        p >= spec_garbage(buffer.len() as int),
{
    if p + 4 <= buffer.len() {
        assert((buffer + more).subrange(p, p + 4) =~= buffer.subrange(p, p + 4));
        assert(magic_at(buffer, p));
    }
}

} // verus!
