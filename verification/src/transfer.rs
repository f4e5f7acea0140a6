//! Frames: how commands and responses are written as bytes, and how the bytes
//! of a stream are read back as commands.
//!
//! A frame is the magic number, a type header of four bytes, a payload whose
//! layout the type decides, and the HMAC-SHA256 tag of all that precedes it.

use crate::buffer::{
    buffer_bytes, buffer_new, buffer_put_slice, buffer_put_u64, buffer_put_u8, buffered,
};
use crate::domain::{
    ClientCommandHeader, ClientCommandView, ClientContentView, ClientRegisterCommand,
    ClientRegisterCommandContent, OperationComplete, OperationCompleteView, OperationReturn,
    OperationReturnView, RegisterCommand, RegisterCommandView, SectorVec, StatusCode,
    SystemCommandHeader, SystemCommandView, SystemContentView, SystemRegisterCommand,
    SystemRegisterCommandContent, MAGIC_NUMBER, PAGE_SIZE,
};
use crate::endian::{
    be_value, be_value_u128, u128_be, u128_from_be_bytes, u128_to_be_bytes, u64_be,
    u64_from_be_bytes, u64_to_be_bytes,
};
use crate::mac::{message_tag, tag_of, HMAC_TAG_SIZE};
use crate::message::MessageType;
use vstd::prelude::*;
use vstd::slice::slice_subrange;

verus! {

/// Why a frame could not be written or read.
#[derive(Debug, Clone, Copy, PartialEq, Eq, Structural)]
pub enum TransferError {
    /// A sector that is not of [`PAGE_SIZE`] bytes, or a type header that
    /// announces no command.
    InvalidData,
    /// The bytes ended before the frame did.
    UnexpectedEof,
}

/// The magic number as a sequence.
pub open spec fn magic() -> Seq<u8> {
    seq![0x61u8, 0x74u8, 0x64u8, 0x64u8]
}

/// The type header: two reserved bytes, the rank of the process that sends
/// the frame or 0, the tag.
pub open spec fn type_header(third: u8, tag: u8) -> Seq<u8> {
    seq![0u8, 0u8, third, tag]
}

/// The tag under which a client command travels.
pub open spec fn client_type(content: ClientContentView) -> MessageType {
    match content {
        ClientContentView::Read => MessageType::Read,
        ClientContentView::Write { .. } => MessageType::Write,
    }
}

/// The tag under which a system command travels.
pub open spec fn system_type(content: SystemContentView) -> MessageType {
    match content {
        SystemContentView::ReadProc => MessageType::ReadProc,
        SystemContentView::Value { .. } => MessageType::Value,
        SystemContentView::WriteProc { .. } => MessageType::WriteProc,
        SystemContentView::Ack => MessageType::Ack,
    }
}

/// Payload of a client command: request, sector index, and the sector of a
/// write.
pub open spec fn client_payload(c: ClientCommandView) -> Seq<u8> {
    u64_be(c.header.request_identifier) + u64_be(c.header.sector_idx) + match c.content {
        ClientContentView::Read => Seq::<u8>::empty(),
        ClientContentView::Write { data } => data,
    }
}

/// A sector with its timestamp and, after seven bytes of padding, the rank of
/// its writer.
pub open spec fn stamped_sector(timestamp: u64, write_rank: u8, data: Seq<u8>) -> Seq<u8> {
    u64_be(timestamp) + seq![0u8, 0u8, 0u8, 0u8, 0u8, 0u8, 0u8] + seq![write_rank] + data
}

/// Payload of a system command: message, read, sector index, and the stamped
/// sector of a `Value` or a `WriteProc`.
pub open spec fn system_payload(c: SystemCommandView) -> Seq<u8> {
    u128_be(c.header.msg_ident) + u64_be(c.header.read_ident) + u64_be(c.header.sector_idx)
        + match c.content {
        SystemContentView::ReadProc => Seq::<u8>::empty(),
        SystemContentView::Ack => Seq::<u8>::empty(),
        SystemContentView::Value { timestamp, write_rank, sector_data } => stamped_sector(
            timestamp,
            write_rank,
            sector_data,
        ),
        SystemContentView::WriteProc { timestamp, write_rank, data_to_write } => stamped_sector(
            timestamp,
            write_rank,
            data_to_write,
        ),
    }
}

/// A command's frame without its tag.
pub open spec fn unsigned_frame(c: RegisterCommandView) -> Seq<u8> {
    match c {
        RegisterCommandView::Client(c) => magic() + type_header(
            0,
            client_type(c.content).spec_tag(),
        ) + client_payload(c),
        RegisterCommandView::System(s) => magic() + type_header(
            s.header.process_identifier,
            system_type(s.content).spec_tag(),
        ) + system_payload(s),
    }
}

/// `body` followed by its tag under `key`.
pub open spec fn sealed(body: Seq<u8>, key: Seq<u8>) -> Seq<u8> {
    body + tag_of(key, body)
}

/// The frame of a command under `key`.
pub open spec fn command_frame(c: RegisterCommandView, key: Seq<u8>) -> Seq<u8> {
    sealed(unsigned_frame(c), key)
}

/// The sector that the command carries, if it carries one, has
/// [`PAGE_SIZE`] bytes.
pub open spec fn well_sized(c: RegisterCommandView) -> bool {
    match c {
        RegisterCommandView::Client(c) => match c.content {
            ClientContentView::Read => true,
            ClientContentView::Write { data } => data.len() == PAGE_SIZE,
        },
        RegisterCommandView::System(s) => match s.content {
            SystemContentView::ReadProc => true,
            SystemContentView::Ack => true,
            SystemContentView::Value { sector_data, .. } => sector_data.len() == PAGE_SIZE,
            SystemContentView::WriteProc { data_to_write, .. } => data_to_write.len() == PAGE_SIZE,
        },
    }
}

/// Appends to `writer` the frame of `cmd` under `hmac_key`. A command whose
/// sector is not of [`PAGE_SIZE`] bytes is refused, and nothing is written.
pub fn serialize_register_command(
    cmd: &RegisterCommand,
    writer: &mut Vec<u8>,
    hmac_key: &[u8],
) -> (r: Result<(), TransferError>)
    ensures
        well_sized(cmd@) ==> r is Ok && final(writer)@ == old(writer)@ + command_frame(
            cmd@,
            hmac_key@,
        ),
        !well_sized(cmd@) ==> r == Err::<(), TransferError>(TransferError::InvalidData)
            && final(writer)@ == old(writer)@,
{
    let mut buf = buffer_new();
    match cmd {
        RegisterCommand::System(system_cmd) => {
            let header = system_cmd.header;
            buffer_put_slice(&mut buf, MAGIC_NUMBER.as_slice());
            buffer_put_slice(&mut buf, [0u8; 2].as_slice());
            buffer_put_u8(&mut buf, header.process_identifier);
            buffer_put_u8(
                &mut buf,
                match &system_cmd.content {
                    SystemRegisterCommandContent::ReadProc => MessageType::ReadProc.tag(),
                    SystemRegisterCommandContent::Ack => MessageType::Ack.tag(),
                    SystemRegisterCommandContent::Value { .. } => MessageType::Value.tag(),
                    SystemRegisterCommandContent::WriteProc { .. } => MessageType::WriteProc.tag(),
                },
            );
            assert(buffered(buf) =~= magic() + type_header(
                header.process_identifier,
                system_type(system_cmd@.content).spec_tag(),
            ));
            buffer_put_slice(&mut buf, u128_to_be_bytes(header.msg_ident).as_slice());
            buffer_put_slice(&mut buf, u64_to_be_bytes(header.read_ident).as_slice());
            buffer_put_slice(&mut buf, u64_to_be_bytes(header.sector_idx).as_slice());
            match &system_cmd.content {
                SystemRegisterCommandContent::ReadProc => {},
                SystemRegisterCommandContent::Ack => {},
                SystemRegisterCommandContent::Value { timestamp, write_rank, sector_data } => {
                    buffer_put_u64(&mut buf, *timestamp);
                    buffer_put_slice(&mut buf, [0u8; 7].as_slice());
                    buffer_put_u8(&mut buf, *write_rank);
                    if sector_data.len() != PAGE_SIZE {
                        return Err(TransferError::InvalidData);
                    }
                    buffer_put_slice(&mut buf, sector_data.to_array());
                },
                SystemRegisterCommandContent::WriteProc { timestamp, write_rank, data_to_write } => {
                    buffer_put_u64(&mut buf, *timestamp);
                    buffer_put_slice(&mut buf, [0u8; 7].as_slice());
                    buffer_put_u8(&mut buf, *write_rank);
                    if data_to_write.len() != PAGE_SIZE {
                        return Err(TransferError::InvalidData);
                    }
                    buffer_put_slice(&mut buf, data_to_write.to_array());
                },
            }
            assert(buffered(buf) =~= unsigned_frame(cmd@));
        },
        RegisterCommand::Client(client_cmd) => {
            let header = client_cmd.header;
            buffer_put_slice(&mut buf, MAGIC_NUMBER.as_slice());
            buffer_put_slice(&mut buf, [0u8; 3].as_slice());
            buffer_put_u8(
                &mut buf,
                match &client_cmd.content {
                    ClientRegisterCommandContent::Read => MessageType::Read.tag(),
                    ClientRegisterCommandContent::Write { .. } => MessageType::Write.tag(),
                },
            );
            assert(buffered(buf) =~= magic() + type_header(
                0,
                client_type(client_cmd@.content).spec_tag(),
            ));
            buffer_put_slice(&mut buf, u64_to_be_bytes(header.request_identifier).as_slice());
            buffer_put_slice(&mut buf, u64_to_be_bytes(header.sector_idx).as_slice());
            match &client_cmd.content {
                ClientRegisterCommandContent::Read => {},
                ClientRegisterCommandContent::Write { data } => {
                    if data.len() != PAGE_SIZE {
                        return Err(TransferError::InvalidData);
                    }
                    buffer_put_slice(&mut buf, data.to_array());
                },
            }
            assert(buffered(buf) =~= unsigned_frame(cmd@));
        },
    }
    let tag = message_tag(hmac_key, buffer_bytes(&buf));
    buffer_put_slice(&mut buf, tag.as_slice());
    writer.extend_from_slice(buffer_bytes(&buf));
    assert(final(writer)@ =~= old(writer)@ + command_frame(cmd@, hmac_key@));
    Ok(())
}

/// The tag under which a response travels.
pub open spec fn response_type(op_return: OperationReturnView) -> MessageType {
    match op_return {
        OperationReturnView::Read { .. } => MessageType::ReadResponse,
        OperationReturnView::Write => MessageType::WriteResponse,
    }
}

/// The sector that a response carries: that of a read that succeeded.
pub open spec fn response_sector(c: OperationCompleteView) -> Option<Seq<u8>> {
    match c.op_return {
        OperationReturnView::Read { read_data } => if c.status_code == StatusCode::Success {
            read_data
        } else {
            None
        },
        OperationReturnView::Write => None,
    }
}

/// A response can be written: a read that succeeded has its sector, of
/// [`PAGE_SIZE`] bytes.
pub open spec fn response_well_sized(c: OperationCompleteView) -> bool {
    c.op_return is Read && c.status_code == StatusCode::Success ==> response_sector(c) is Some
        && response_sector(c)->0.len() == PAGE_SIZE
}

/// A response's frame without its tag: magic number, type header, status,
/// request, and the sector of a read that succeeded.
pub open spec fn unsigned_response(c: OperationCompleteView) -> Seq<u8> {
    magic() + type_header(0, response_type(c.op_return).spec_tag()) + seq![
        c.status_code.spec_code(),
    ] + u64_be(c.request_identifier) + match response_sector(c) {
        Some(data) => data,
        None => Seq::<u8>::empty(),
    }
}

/// The frame of a response under `key`.
pub open spec fn response_frame(c: OperationCompleteView, key: Seq<u8>) -> Seq<u8> {
    sealed(unsigned_response(c), key)
}

/// Appends to `writer` the frame of the response `cmd` under `hmac_key`. A
/// read that succeeded without a sector of [`PAGE_SIZE`] bytes is refused,
/// and nothing is written.
pub fn serialize_operation_complete_command(
    cmd: &OperationComplete,
    writer: &mut Vec<u8>,
    hmac_key: &[u8],
) -> (r: Result<(), TransferError>)
    ensures
        response_well_sized(cmd@) ==> r is Ok && final(writer)@ == old(writer)@ + response_frame(
            cmd@,
            hmac_key@,
        ),
        !response_well_sized(cmd@) ==> r == Err::<(), TransferError>(TransferError::InvalidData)
            && final(writer)@ == old(writer)@,
{
    let mut buf = buffer_new();
    buffer_put_slice(&mut buf, MAGIC_NUMBER.as_slice());
    buffer_put_slice(&mut buf, [0u8; 3].as_slice());
    buffer_put_u8(
        &mut buf,
        match &cmd.op_return {
            OperationReturn::Read(_) => MessageType::ReadResponse.tag(),
            OperationReturn::Write => MessageType::WriteResponse.tag(),
        },
    );
    assert(buffered(buf) =~= magic() + type_header(0, response_type(cmd@.op_return).spec_tag()));
    buffer_put_u8(&mut buf, cmd.status_code.code());
    buffer_put_u64(&mut buf, cmd.request_identifier);
    match &cmd.op_return {
        OperationReturn::Read(read_return) => {
            if cmd.status_code == StatusCode::Success {
                match &read_return.read_data {
                    Some(data) => {
                        if data.len() != PAGE_SIZE {
                            return Err(TransferError::InvalidData);
                        }
                        buffer_put_slice(&mut buf, data.to_array());
                    },
                    None => {
                        return Err(TransferError::InvalidData);
                    },
                }
            }
        },
        OperationReturn::Write => {},
    }
    assert(buffered(buf) =~= unsigned_response(cmd@));
    let tag = message_tag(hmac_key, buffer_bytes(&buf));
    buffer_put_slice(&mut buf, tag.as_slice());
    writer.extend_from_slice(buffer_bytes(&buf));
    assert(final(writer)@ =~= old(writer)@ + response_frame(cmd@, hmac_key@));
    Ok(())
}

/// The four bytes of `s` from `i` on are the magic number.
pub open spec fn magic_at(s: Seq<u8>, i: int) -> bool {
    0 <= i && i + 4 <= s.len() && s.subrange(i, i + 4) == magic()
}

/// `p` is where the first magic number of `s` stands: where a reader that
/// slides over `s` byte by byte finds the start of a frame.
pub open spec fn frame_start(s: Seq<u8>, p: int) -> bool {
    magic_at(s, p) && forall|j: int| 0 <= j < p ==> !magic_at(s, j)
}

/// The magic number stands nowhere in `s`.
pub open spec fn no_frame(s: Seq<u8>) -> bool {
    forall|j: int| !magic_at(s, j)
}

/// The timestamp that a `Value` or a `WriteProc` carries in bytes 40 to 47
/// of its frame.
pub open spec fn frame_timestamp(f: Seq<u8>) -> u64 {
    be_value(f.subrange(40, 48)) as u64
}

/// The command that the frame `f` of a command holds. `f` starts at its magic
/// number and ends with its tag.
pub open spec fn frame_command(f: Seq<u8>) -> RegisterCommandView {
    let t = MessageType::of_tag(f[7]);
    if t.is_system() {
        RegisterCommandView::System(
            SystemCommandView {
                header: SystemCommandHeader {
                    process_identifier: f[6],
                    msg_ident: be_value_u128(f.subrange(8, 24)),
                    read_ident: be_value(f.subrange(24, 32)) as u64,
                    sector_idx: be_value(f.subrange(32, 40)) as u64,
                },
                content: if t == MessageType::ReadProc {
                    SystemContentView::ReadProc
                } else if t == MessageType::Ack {
                    SystemContentView::Ack
                } else if t == MessageType::Value {
                    SystemContentView::Value {
                        timestamp: frame_timestamp(f),
                        write_rank: f[55],
                        sector_data: f.subrange(56, 56 + PAGE_SIZE),
                    }
                } else {
                    SystemContentView::WriteProc {
                        timestamp: frame_timestamp(f),
                        write_rank: f[55],
                        data_to_write: f.subrange(56, 56 + PAGE_SIZE),
                    }
                },
            },
        )
    } else {
        RegisterCommandView::Client(
            ClientCommandView {
                header: ClientCommandHeader {
                    request_identifier: be_value(f.subrange(8, 16)) as u64,
                    sector_idx: be_value(f.subrange(16, 24)) as u64,
                },
                content: if t == MessageType::Read {
                    ClientContentView::Read
                } else {
                    ClientContentView::Write { data: f.subrange(24, 24 + PAGE_SIZE) }
                },
            },
        )
    }
}

/// The key that a frame's tag is checked with: the system key for the four
/// messages of the protocol, the client key for a read or a write.
pub open spec fn frame_key(f: Seq<u8>, system_key: Seq<u8>, client_key: Seq<u8>) -> Seq<u8> {
    if MessageType::of_tag(f[7]).is_system() {
        system_key
    } else {
        client_key
    }
}

/// The last [`HMAC_TAG_SIZE`] bytes of `f` are the tag of the bytes before
/// them, under the key of its type.
pub open spec fn frame_authentic(f: Seq<u8>, system_key: Seq<u8>, client_key: Seq<u8>) -> bool {
    let n = f.len() - HMAC_TAG_SIZE;
    tag_of(frame_key(f, system_key, client_key), f.subrange(0, n)) == f.subrange(
        n,
        f.len() as int,
    )
}

/// Number of bytes of the frame that starts at `p` in `s`, given that `s`
/// holds its type header.
pub open spec fn frame_len_at(s: Seq<u8>, p: int) -> int {
    8 + MessageType::of_tag(s[p + 7]).spec_content_size()
}

/// What a reader makes of `s` when the first magic number stands at `p`: the
/// command of the frame and whether its tag is right, or why no command
/// could be read.
pub open spec fn decode_at(s: Seq<u8>, p: int, system_key: Seq<u8>, client_key: Seq<u8>) -> Result<
    (RegisterCommandView, bool),
    TransferError,
> {
    if s.len() < p + 8 {
        Err(TransferError::UnexpectedEof)
    } else if !MessageType::of_tag(s[p + 7]).is_command() {
        Err(TransferError::InvalidData)
    } else if s.len() < p + frame_len_at(s, p) {
        Err(TransferError::UnexpectedEof)
    } else {
        let f = s.subrange(p, p + frame_len_at(s, p));
        Ok((frame_command(f), frame_authentic(f, system_key, client_key)))
    }
}

/// How many bytes of `s` a reader has taken when it is done with the frame
/// whose magic number stands at `p`: up to the end of the frame, up to the end
/// of the type header where that announces no command, or all of `s` where `s`
/// ends too early.
pub open spec fn taken_at(s: Seq<u8>, p: int) -> int {
    if s.len() < p + 8 {
        s.len() as int
    } else if !MessageType::of_tag(s[p + 7]).is_command() {
        p + 8
    } else if s.len() < p + frame_len_at(s, p) {
        s.len() as int
    } else {
        p + frame_len_at(s, p)
    }
}

/// The result of a reader, with the command as its view.
pub open spec fn decoded_view(r: Result<(RegisterCommand, bool), TransferError>) -> Result<
    (RegisterCommandView, bool),
    TransferError,
> {
    match r {
        Ok((cmd, valid)) => Ok((cmd@, valid)),
        Err(e) => Err(e),
    }
}

/// Whether two slices hold the same bytes.
fn same_bytes(a: &[u8], b: &[u8]) -> (r: bool)
    ensures
        r == (a@ == b@),
{
    if a.len() != b.len() {
        return false;
    }
    let mut i: usize = 0;
    while i < a.len()
        invariant
            i <= a.len(),
            a.len() == b.len(),
            forall|j: int| 0 <= j < i ==> a@[j] == b@[j],
        decreases a.len() - i,
    {
        if a[i] != b[i] {
            return false;
        }
        i = i + 1;
    }
    assert(a@ =~= b@);
    true
}

/// Whether the four bytes of `s` from `i` on are the magic number.
fn is_magic_at(s: &[u8], i: usize) -> (r: bool)
    requires
        i + 4 <= s.len(),
    ensures
        r == magic_at(s@, i as int),
{
    let r = s[i] == MAGIC_NUMBER[0] && s[i + 1] == MAGIC_NUMBER[1] && s[i + 2] == MAGIC_NUMBER[2]
        && s[i + 3] == MAGIC_NUMBER[3];
    proof {
        let w = s@.subrange(i as int, i + 4);
        if r {
            assert(w =~= magic());
        } else {
            assert(w[0] == s@[i as int] && w[1] == s@[i + 1] && w[2] == s@[i + 2] && w[3] == s@[i
                + 3]);
        }
    }
    r
}

/// Where the first magic number stands in `s`, if one stands there.
pub fn find_frame_start(s: &[u8]) -> (r: Option<usize>)
    ensures
        r is None ==> no_frame(s@),
        r is Some ==> frame_start(s@, r->Some_0 as int),
{
    let n = s.len();
    let mut p: usize = 0;
    while n - p >= 4 && !is_magic_at(s, p)
        invariant
            p <= n,
            n == s.len(),
            forall|j: int| 0 <= j < p ==> !magic_at(s@, j),
        decreases n - p,
    {
        p = p + 1;
    }
    if n - p < 4 {
        None
    } else {
        Some(p)
    }
}

/// Reads the next command from `data`: skips bytes until the magic number
/// stands before the reader, reads the type header and, by the type it
/// announces, the payload and the tag. The command is returned with
/// `true` where the tag is the HMAC-SHA256 of the frame before it, under
/// `hmac_system_key` for a message of the protocol and under
/// `hmac_client_key` for a read or a write, and with `false` where it is not.
/// `data` is left behind what was taken.
pub fn deserialize_register_command(
    data: &mut &[u8],
    hmac_system_key: &[u8; 64],
    hmac_client_key: &[u8; 32],
) -> (r: Result<(RegisterCommand, bool), TransferError>)
    ensures
        no_frame(old(data)@) ==> r == Err::<(RegisterCommand, bool), TransferError>(
            TransferError::UnexpectedEof,
        ) && final(data)@.len() == 0,
        forall|p: int|
            frame_start(old(data)@, p) ==> decoded_view(r) == decode_at(
                old(data)@,
                p,
                hmac_system_key@,
                hmac_client_key@,
            ) && final(data)@ == old(data)@.skip(taken_at(old(data)@, p)),
{
    let s: &[u8] = *data;
    let n = s.len();
    let p = match find_frame_start(s) {
        Some(p) => p,
        None => {
            *data = slice_subrange(s, n, n);
            return Err(TransferError::UnexpectedEof);
        },
    };
    assert forall|q: int| frame_start(s@, q) implies q == p by {
        if q < p {
            assert(!magic_at(s@, q));
        }
    }
    if n - p < 8 {
        *data = slice_subrange(s, n, n);
        assert(data@ =~= s@.skip(n as int));
        return Err(TransferError::UnexpectedEof);
    }
    let process_identifier = s[p + 6];
    let mut message_type = MessageType::from(s[p + 7]);
    let size = message_type.content_size();
    if size == 0 {
        *data = slice_subrange(s, p + 8, n);
        assert(data@ =~= s@.skip(p + 8));
        return Err(TransferError::InvalidData);
    }
    if n - (p + 8) < size {
        *data = slice_subrange(s, n, n);
        assert(data@ =~= s@.skip(n as int));
        return Err(TransferError::UnexpectedEof);
    }
    let end = p + 8 + size;
    let f = slice_subrange(s, p, end);
    *data = slice_subrange(s, end, n);
    assert(data@ =~= s@.skip(end as int));
    let signed = end - p - HMAC_TAG_SIZE;
    let is_system = message_type == MessageType::ReadProc || message_type == MessageType::Value
        || message_type == MessageType::WriteProc || message_type == MessageType::Ack;
    let tag = if is_system {
        message_tag(hmac_system_key.as_slice(), slice_subrange(f, 0, signed))
    } else {
        message_tag(hmac_client_key.as_slice(), slice_subrange(f, 0, signed))
    };
    let hmac_valid = same_bytes(tag.as_slice(), slice_subrange(f, signed, f.len()));
    if is_system {
        let header = SystemCommandHeader {
            process_identifier,
            msg_ident: u128_from_be_bytes(f, 8),
            read_ident: u64_from_be_bytes(f, 24),
            sector_idx: u64_from_be_bytes(f, 32),
        };
        let content = if message_type == MessageType::ReadProc {
            SystemRegisterCommandContent::ReadProc
        } else if message_type == MessageType::Ack {
            SystemRegisterCommandContent::Ack
        } else if message_type == MessageType::Value {
            SystemRegisterCommandContent::Value {
                timestamp: u64_from_be_bytes(f, 40),
                write_rank: f[55],
                sector_data: SectorVec(copy_of(slice_subrange(f, 56, 56 + PAGE_SIZE))),
            }
        } else {
            SystemRegisterCommandContent::WriteProc {
                timestamp: u64_from_be_bytes(f, 40),
                write_rank: f[55],
                data_to_write: SectorVec(copy_of(slice_subrange(f, 56, 56 + PAGE_SIZE))),
            }
        };
        Ok((RegisterCommand::System(SystemRegisterCommand { header, content }), hmac_valid))
    } else {
        let header = ClientCommandHeader {
            request_identifier: u64_from_be_bytes(f, 8),
            sector_idx: u64_from_be_bytes(f, 16),
        };
        let content = if message_type == MessageType::Read {
            ClientRegisterCommandContent::Read
        } else {
            ClientRegisterCommandContent::Write {
                data: SectorVec(copy_of(slice_subrange(f, 24, 24 + PAGE_SIZE))),
            }
        };
        Ok((RegisterCommand::Client(ClientRegisterCommand { header, content }), hmac_valid))
    }
}

/// The bytes of `s` in a vector of their own.
fn copy_of(s: &[u8]) -> (r: Vec<u8>)
    ensures
        r@ == s@,
{
    let mut r: Vec<u8> = Vec::new();
    r.extend_from_slice(s);
    assert(r@ =~= s@);
    r
}

} // verus!
