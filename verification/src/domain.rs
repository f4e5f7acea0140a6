//! The values that clients, processes and the register exchange.

use vstd::prelude::*;

verus! {

/// First four bytes of every frame.
pub const MAGIC_NUMBER: [u8; 4] = [0x61, 0x74, 0x64, 0x64];

/// Number of bytes in a sector.
pub const PAGE_SIZE: usize = 4096;

/// Index of a sector.
pub type SectorIdx = u64;

/// The payload of one sector. A well-formed one has [`PAGE_SIZE`] bytes.
#[derive(Debug, Clone, PartialEq, Eq)]
pub struct SectorVec(pub Vec<u8>);

impl View for SectorVec {
    type V = Seq<u8>;

    open spec fn view(&self) -> Seq<u8> {
        self.0@
    }
}

/// A sector of zero bytes: what a sector holds before its first write.
pub open spec fn zero_sector() -> Seq<u8> {
    Seq::new(PAGE_SIZE as nat, |i: int| 0u8)
}

impl SectorVec {
    /// The bytes of the sector.
    pub fn to_array(&self) -> (r: &[u8])
        ensures
            r@ == self@,
    {
        self.0.as_slice()
    }

    /// The number of bytes that the sector holds.
    pub fn len(&self) -> (r: usize)
        ensures
            r == self@.len(),
    {
        self.0.len()
    }

    /// A sector with the same bytes.
    pub fn duplicate(&self) -> (r: SectorVec)
        ensures
            r@ == self@,
    {
        let mut bytes: Vec<u8> = Vec::new();
        bytes.extend_from_slice(self.0.as_slice());
        SectorVec(bytes)
    }
}

/// A sector of [`PAGE_SIZE`] zero bytes.
pub fn empty_sector() -> (r: SectorVec)
    ensures
        r@ == zero_sector(),
{
    let mut bytes: Vec<u8> = Vec::new();
    let mut i: usize = 0;
    while i < PAGE_SIZE
        invariant
            i <= PAGE_SIZE,
            bytes@.len() == i,
            forall|j: int| 0 <= j < i ==> bytes@[j] == 0u8,
        decreases PAGE_SIZE - i,
    {
        bytes.push(0u8);
        i = i + 1;
    }
    assert(bytes@ =~= zero_sector());
    SectorVec(bytes)
}

/// What a client asks for, and on which sector.
#[derive(Debug, Clone, Copy, PartialEq, Eq, Structural)]
pub struct ClientCommandHeader {
    pub request_identifier: u64,
    pub sector_idx: SectorIdx,
}

/// The operation of a client command.
#[derive(Debug, Clone, PartialEq, Eq)]
pub enum ClientRegisterCommandContent {
    Read,
    Write { data: SectorVec },
}

/// A command that a client sends to a process.
#[derive(Debug, Clone, PartialEq, Eq)]
pub struct ClientRegisterCommand {
    pub header: ClientCommandHeader,
    pub content: ClientRegisterCommandContent,
}

/// Who sent a system message, which message it is, and the read it belongs
/// to. `msg_ident` holds the 128 bits of the message's UUID.
#[derive(Debug, Clone, Copy, PartialEq, Eq, Structural)]
pub struct SystemCommandHeader {
    pub process_identifier: u8,
    pub msg_ident: u128,
    pub read_ident: u64,
    pub sector_idx: SectorIdx,
}

/// The four messages of the register's protocol.
#[derive(Debug, Clone, PartialEq, Eq)]
pub enum SystemRegisterCommandContent {
    ReadProc,
    Value { timestamp: u64, write_rank: u8, sector_data: SectorVec },
    WriteProc { timestamp: u64, write_rank: u8, data_to_write: SectorVec },
    Ack,
}

/// A message that one process sends to another.
#[derive(Debug, Clone, PartialEq, Eq)]
pub struct SystemRegisterCommand {
    pub header: SystemCommandHeader,
    pub content: SystemRegisterCommandContent,
}

/// Anything that arrives at a process.
#[derive(Debug, Clone, PartialEq, Eq)]
pub enum RegisterCommand {
    Client(ClientRegisterCommand),
    System(SystemRegisterCommand),
}

/// [`ClientRegisterCommandContent`] with its sector as a sequence.
pub enum ClientContentView {
    Read,
    Write { data: Seq<u8> },
}

/// [`ClientRegisterCommand`] with its sector as a sequence.
pub struct ClientCommandView {
    pub header: ClientCommandHeader,
    pub content: ClientContentView,
}

/// [`SystemRegisterCommandContent`] with its sector as a sequence.
pub enum SystemContentView {
    ReadProc,
    Value { timestamp: u64, write_rank: u8, sector_data: Seq<u8> },
    WriteProc { timestamp: u64, write_rank: u8, data_to_write: Seq<u8> },
    Ack,
}

/// [`SystemRegisterCommand`] with its sector as a sequence.
pub struct SystemCommandView {
    pub header: SystemCommandHeader,
    pub content: SystemContentView,
}

/// [`RegisterCommand`] with its sector as a sequence.
pub enum RegisterCommandView {
    Client(ClientCommandView),
    System(SystemCommandView),
}

impl View for ClientRegisterCommandContent {
    type V = ClientContentView;

    open spec fn view(&self) -> ClientContentView {
        match self {
            ClientRegisterCommandContent::Read => ClientContentView::Read,
            ClientRegisterCommandContent::Write { data } => ClientContentView::Write { data: data@ },
        }
    }
}

impl View for ClientRegisterCommand {
    type V = ClientCommandView;

    open spec fn view(&self) -> ClientCommandView {
        ClientCommandView { header: self.header, content: self.content@ }
    }
}

impl View for SystemRegisterCommandContent {
    type V = SystemContentView;

    open spec fn view(&self) -> SystemContentView {
        match self {
            SystemRegisterCommandContent::ReadProc => SystemContentView::ReadProc,
            SystemRegisterCommandContent::Value { timestamp, write_rank, sector_data } => {
                SystemContentView::Value {
                    timestamp: *timestamp,
                    write_rank: *write_rank,
                    sector_data: sector_data@,
                }
            },
            SystemRegisterCommandContent::WriteProc { timestamp, write_rank, data_to_write } => {
                SystemContentView::WriteProc {
                    timestamp: *timestamp,
                    write_rank: *write_rank,
                    data_to_write: data_to_write@,
                }
            },
            SystemRegisterCommandContent::Ack => SystemContentView::Ack,
        }
    }
}

impl SystemRegisterCommand {
    /// A message with the same header and content.
    pub fn duplicate(&self) -> (r: SystemRegisterCommand)
        ensures
            r@ == self@,
    {
        SystemRegisterCommand {
            header: self.header,
            content: match &self.content {
                SystemRegisterCommandContent::ReadProc => SystemRegisterCommandContent::ReadProc,
                SystemRegisterCommandContent::Value { timestamp, write_rank, sector_data } => {
                    SystemRegisterCommandContent::Value {
                        timestamp: *timestamp,
                        write_rank: *write_rank,
                        sector_data: sector_data.duplicate(),
                    }
                },
                SystemRegisterCommandContent::WriteProc {
                    timestamp,
                    write_rank,
                    data_to_write,
                } => SystemRegisterCommandContent::WriteProc {
                    timestamp: *timestamp,
                    write_rank: *write_rank,
                    data_to_write: data_to_write.duplicate(),
                },
                SystemRegisterCommandContent::Ack => SystemRegisterCommandContent::Ack,
            },
        }
    }
}

impl View for SystemRegisterCommand {
    type V = SystemCommandView;

    open spec fn view(&self) -> SystemCommandView {
        SystemCommandView { header: self.header, content: self.content@ }
    }
}

impl View for RegisterCommand {
    type V = RegisterCommandView;

    open spec fn view(&self) -> RegisterCommandView {
        match self {
            RegisterCommand::Client(c) => RegisterCommandView::Client(c@),
            RegisterCommand::System(s) => RegisterCommandView::System(s@),
        }
    }
}

/// How an operation ended.
#[derive(Debug, Clone, Copy, PartialEq, Eq, Structural)]
pub enum StatusCode {
    Success,
    AuthFailure,
    InvalidSectorIndex,
    Unknown,
}

impl StatusCode {
    /// The byte that stands for the status in a response.
    pub open spec fn spec_code(self) -> u8 {
        match self {
            StatusCode::Success => 0,
            StatusCode::AuthFailure => 1,
            StatusCode::InvalidSectorIndex => 2,
            StatusCode::Unknown => 3,
        }
    }

    /// The byte that stands for the status in a response.
    pub fn code(self) -> (r: u8)
        ensures
            r == self.spec_code(),
    {
        match self {
            StatusCode::Success => 0,
            StatusCode::AuthFailure => 1,
            StatusCode::InvalidSectorIndex => 2,
            StatusCode::Unknown => 3,
        }
    }
}

/// What a completed read hands back: the sector, where there is one.
#[derive(Debug, Clone, PartialEq, Eq)]
pub struct ReadReturn {
    pub read_data: Option<SectorVec>,
}

/// What a completed operation hands back.
#[derive(Debug, Clone, PartialEq, Eq)]
pub enum OperationReturn {
    Read(ReadReturn),
    Write,
}

/// The answer to one client command.
#[derive(Debug, Clone, PartialEq, Eq)]
pub struct OperationComplete {
    pub status_code: StatusCode,
    pub request_identifier: u64,
    pub op_return: OperationReturn,
}

/// [`OperationReturn`] with its sector as a sequence.
pub enum OperationReturnView {
    Read { read_data: Option<Seq<u8>> },
    Write,
}

/// [`OperationComplete`] with its sector as a sequence.
pub struct OperationCompleteView {
    pub status_code: StatusCode,
    pub request_identifier: u64,
    pub op_return: OperationReturnView,
}

impl View for OperationReturn {
    type V = OperationReturnView;

    open spec fn view(&self) -> OperationReturnView {
        match self {
            OperationReturn::Read(r) => OperationReturnView::Read {
                read_data: match r.read_data {
                    Some(d) => Some(d@),
                    None => None,
                },
            },
            OperationReturn::Write => OperationReturnView::Write,
        }
    }
}

impl View for OperationComplete {
    type V = OperationCompleteView;

    open spec fn view(&self) -> OperationCompleteView {
        OperationCompleteView {
            status_code: self.status_code,
            request_identifier: self.request_identifier,
            op_return: self.op_return@,
        }
    }
}

} // verus!
