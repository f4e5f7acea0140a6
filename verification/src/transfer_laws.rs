//! What holds of frames whatever the command and the keys: a frame reads
//! back as its command, bytes before it do not matter, and a changed frame
//! does not pass for an authentic one.

use crate::domain::{
    ClientCommandView, ClientContentView, RegisterCommandView, SystemCommandView,
    SystemContentView, PAGE_SIZE,
};
use crate::endian::{
    be_value, be_value_u128, lemma_be_value_u128, lemma_be_value_u64, u128_be, u64_be,
};
use crate::mac::{tag_of, HMAC_TAG_SIZE};
use crate::message::MessageType;
use crate::transfer::{
    client_type, command_frame, decode_at, frame_authentic, frame_command, frame_key,
    frame_len_at, frame_start, magic, magic_at, no_frame, stamped_sector, system_type, taken_at,
    type_header, unsigned_frame, well_sized, TransferError,
};
use vstd::prelude::*;

verus! {

/// The key that a reader checks the frame of `c` with.
pub open spec fn command_key(c: RegisterCommandView, system_key: Seq<u8>, client_key: Seq<u8>) -> Seq<u8> {
    match c {
        RegisterCommandView::Client(_) => client_key,
        RegisterCommandView::System(_) => system_key,
    }
}

/// The type under which `c` travels.
pub open spec fn command_type(c: RegisterCommandView) -> MessageType {
    match c {
        RegisterCommandView::Client(c) => client_type(c.content),
        RegisterCommandView::System(s) => system_type(s.content),
    }
}

/// The frame of a well-sized command starts with the magic number, carries
/// the tag of its type in its eighth byte, and has the length that its type
/// announces.
pub proof fn lemma_frame_layout(c: RegisterCommandView, key: Seq<u8>)
    requires
        well_sized(c),
    ensures
        command_frame(c, key).len() == 8 + command_type(c).spec_content_size(),
        unsigned_frame(c).len() + HMAC_TAG_SIZE == command_frame(c, key).len(),
        command_frame(c, key).subrange(0, 4) == magic(),
        command_frame(c, key)[7] == command_type(c).spec_tag(),
        MessageType::of_tag(command_frame(c, key)[7]) == command_type(c),
        command_type(c).is_command(),
        command_type(c).is_system() <==> c is System,
{
    let f = command_frame(c, key);
    assert(f.subrange(0, 4) =~= magic());
}

/// The frame of a well-sized client command holds the command.
proof fn lemma_client_frame_holds(cc: ClientCommandView, key: Seq<u8>)
    requires
        well_sized(RegisterCommandView::Client(cc)),
    ensures
        frame_command(command_frame(RegisterCommandView::Client(cc), key))
            == RegisterCommandView::Client(cc),
{
    let c = RegisterCommandView::Client(cc);
    let f = command_frame(c, key);
    let rid = cc.header.request_identifier;
    let idx = cc.header.sector_idx;
    lemma_frame_layout(c, key);
    lemma_be_value_u64(rid);
    lemma_be_value_u64(idx);
    assert(f.subrange(8, 16) =~= u64_be(rid));
    assert(f.subrange(16, 24) =~= u64_be(idx));
    match cc.content {
        ClientContentView::Read => {},
        ClientContentView::Write { data } => {
            assert(f.subrange(24, 24 + PAGE_SIZE) =~= data);
        },
    }
}

/// The frame of a system command holds its header.
proof fn lemma_system_frame_header(sc: SystemCommandView, key: Seq<u8>)
    requires
        well_sized(RegisterCommandView::System(sc)),
    ensures
        ({
            let f = command_frame(RegisterCommandView::System(sc), key);
            &&& f[6] == sc.header.process_identifier
            &&& be_value_u128(f.subrange(8, 24)) == sc.header.msg_ident
            &&& be_value(f.subrange(24, 32)) == sc.header.read_ident
            &&& be_value(f.subrange(32, 40)) == sc.header.sector_idx
        }),
{
    let c = RegisterCommandView::System(sc);
    let f = command_frame(c, key);
    let h = sc.header;
    lemma_be_value_u128(h.msg_ident);
    lemma_be_value_u64(h.read_ident);
    lemma_be_value_u64(h.sector_idx);
    assert(f.subrange(8, 24) =~= u128_be(h.msg_ident));
    assert(f.subrange(24, 32) =~= u64_be(h.read_ident));
    assert(f.subrange(32, 40) =~= u64_be(h.sector_idx));
}

/// The frame of a system command with a sector holds the stamped sector.
proof fn lemma_system_frame_sector(
    sc: SystemCommandView,
    key: Seq<u8>,
    timestamp: u64,
    write_rank: u8,
    data: Seq<u8>,
)
    requires
        data.len() == PAGE_SIZE,
        sc.content == (SystemContentView::Value { timestamp, write_rank, sector_data: data })
            || sc.content == (SystemContentView::WriteProc {
            timestamp,
            write_rank,
            data_to_write: data,
        }),
    ensures
        ({
            let f = command_frame(RegisterCommandView::System(sc), key);
            &&& be_value(f.subrange(40, 48)) == timestamp
            &&& f[55] == write_rank
            &&& f.subrange(56, 56 + PAGE_SIZE) == data
        }),
{
    let c = RegisterCommandView::System(sc);
    let f = command_frame(c, key);
    let head = magic() + type_header(
        sc.header.process_identifier,
        system_type(sc.content).spec_tag(),
    ) + u128_be(sc.header.msg_ident) + u64_be(sc.header.read_ident) + u64_be(sc.header.sector_idx);
    assert(head.len() == 40);
    assert(f =~= head + stamped_sector(timestamp, write_rank, data) + tag_of(
        key,
        unsigned_frame(c),
    ));
    lemma_be_value_u64(timestamp);
    assert(f.subrange(40, 48) =~= u64_be(timestamp));
    assert(f.subrange(56, 56 + PAGE_SIZE) =~= data);
}

/// The frame of a well-sized command holds the command.
pub proof fn lemma_frame_holds_command(c: RegisterCommandView, key: Seq<u8>)
    requires
        well_sized(c),
    ensures
        frame_command(command_frame(c, key)) == c,
{
    let f = command_frame(c, key);
    lemma_frame_layout(c, key);
    match c {
        RegisterCommandView::Client(cc) => {
            lemma_client_frame_holds(cc, key);
        },
        RegisterCommandView::System(sc) => {
            lemma_system_frame_header(sc, key);
            match sc.content {
                SystemContentView::ReadProc => {},
                SystemContentView::Ack => {},
                SystemContentView::Value { timestamp, write_rank, sector_data } => {
                    lemma_system_frame_sector(sc, key, timestamp, write_rank, sector_data);
                },
                SystemContentView::WriteProc { timestamp, write_rank, data_to_write } => {
                    lemma_system_frame_sector(sc, key, timestamp, write_rank, data_to_write);
                },
            }
        },
    }
}

/// Round trip: the frame of a well-sized command, whatever follows it, reads
/// back as that command, authentic under the key it was written with, and
/// the reader stops at the end of the frame.
pub proof fn lemma_round_trip(
    c: RegisterCommandView,
    system_key: Seq<u8>,
    client_key: Seq<u8>,
    rest: Seq<u8>,
)
    requires
        well_sized(c),
    ensures
        ({
            let f = command_frame(c, command_key(c, system_key, client_key));
            &&& frame_start(f + rest, 0)
            &&& decode_at(f + rest, 0, system_key, client_key) == Ok::<
                (RegisterCommandView, bool),
                TransferError,
            >((c, true))
            &&& taken_at(f + rest, 0) == f.len()
        }),
{
    let key = command_key(c, system_key, client_key);
    let f = command_frame(c, key);
    let s = f + rest;
    lemma_frame_layout(c, key);
    lemma_frame_holds_command(c, key);
    assert(s.subrange(0, 4) =~= f.subrange(0, 4));
    assert(s[7] == f[7]);
    assert(s.subrange(0, f.len() as int) =~= f);
    let n = f.len() - HMAC_TAG_SIZE;
    assert(f.subrange(0, n) =~= unsigned_frame(c));
    assert(f.subrange(n, f.len() as int) =~= tag_of(key, unsigned_frame(c)));
    assert(frame_key(f, system_key, client_key) == key);
}

/// Resync: bytes that hold no magic number, put before bytes that start with
/// one, are skipped, and what is read is what would be read without them.
pub proof fn lemma_resync(
    garbage: Seq<u8>,
    stream: Seq<u8>,
    system_key: Seq<u8>,
    client_key: Seq<u8>,
)
    requires
        no_frame(garbage),
        magic_at(stream, 0),
    ensures
        frame_start(stream, 0),
        frame_start(garbage + stream, garbage.len() as int),
        decode_at(garbage + stream, garbage.len() as int, system_key, client_key) == decode_at(
            stream,
            0,
            system_key,
            client_key,
        ),
        taken_at(garbage + stream, garbage.len() as int) == garbage.len() + taken_at(stream, 0),
{
    let s = garbage + stream;
    let g = garbage.len() as int;
    assert(s.subrange(g, g + 4) =~= stream.subrange(0, 4));
    assert forall|j: int| 0 <= j < g implies !magic_at(s, j) by {
        if j + 4 <= g {
            assert(s.subrange(j, j + 4) =~= garbage.subrange(j, j + 4));
            assert(!magic_at(garbage, j));
        } else if j + 4 <= s.len() {
            let w = s.subrange(j, j + 4);
            let k = g - j;
            assert(w[k] == stream[0]);
            assert(stream.subrange(0, 4)[0] == stream[0]);
            assert(magic()[0] == 0x61 && magic()[1] == 0x74 && magic()[2] == 0x64 && magic()[3]
                == 0x64);
        }
    }
    if stream.len() >= 8 {
        assert(s[g + 7] == stream[7]);
        let len = frame_len_at(stream, 0);
        if stream.len() >= len {
            assert(s.subrange(g, g + len) =~= stream.subrange(0, len));
        }
    }
}

/// Resync of a frame: the frame of a well-sized command, behind bytes that
/// hold no magic number, reads back as that command, authentic under the key
/// it was written with.
pub proof fn lemma_resync_frame(
    garbage: Seq<u8>,
    c: RegisterCommandView,
    system_key: Seq<u8>,
    client_key: Seq<u8>,
    rest: Seq<u8>,
)
    requires
        no_frame(garbage),
        well_sized(c),
    ensures
        ({
            let f = command_frame(c, command_key(c, system_key, client_key));
            &&& frame_start(garbage + (f + rest), garbage.len() as int)
            &&& decode_at(garbage + (f + rest), garbage.len() as int, system_key, client_key)
                == Ok::<(RegisterCommandView, bool), TransferError>((c, true))
            &&& taken_at(garbage + (f + rest), garbage.len() as int) == garbage.len() + f.len()
        }),
{
    let f = command_frame(c, command_key(c, system_key, client_key));
    lemma_round_trip(c, system_key, client_key, rest);
    lemma_resync(garbage, f + rest, system_key, client_key);
}

/// The first magic number of a stream stands at one place at most.
pub proof fn lemma_frame_start_unique(s: Seq<u8>, p: int, q: int)
    requires
        frame_start(s, p),
        frame_start(s, q),
    ensures
        p == q,
{
    if p < q {
        assert(!magic_at(s, p));
    }
    if q < p {
        assert(!magic_at(s, q));
    }
}

/// A stream holds no magic number, or its first one stands somewhere.
pub proof fn lemma_frame_start_exists(s: Seq<u8>) -> (p: int)
    ensures
        no_frame(s) || frame_start(s, p),
{
    lemma_first_magic_from(s, 0)
}

/// The first magic number at or behind `from`, given that none stands before.
proof fn lemma_first_magic_from(s: Seq<u8>, from: int) -> (p: int)
    requires
        0 <= from,
        forall|j: int| 0 <= j < from ==> !magic_at(s, j),
    ensures
        no_frame(s) || frame_start(s, p),
    decreases s.len() - from,
{
    if from + 4 > s.len() {
        assert forall|j: int| !magic_at(s, j) by {
            if 0 <= j < from {
                assert(!magic_at(s, j));
            }
        }
        from
    } else if magic_at(s, from) {
        from
    } else {
        lemma_first_magic_from(s, from + 1)
    }
}

/// Tamper detection: take the frame of a well-sized command under the key of
/// its kind and change one byte behind the magic number, so that the bytes
/// still read as one frame of that length. The frame read is not authentic:
/// always where the byte stands in the tag, and elsewhere unless the changed
/// bytes happen to have the HMAC of the unchanged ones.
pub proof fn lemma_tamper_detected(
    c: RegisterCommandView,
    system_key: Seq<u8>,
    client_key: Seq<u8>,
    at: int,
    byte: u8,
)
    requires
        well_sized(c),
        4 <= at < command_frame(c, command_key(c, system_key, client_key)).len(),
        byte != command_frame(c, command_key(c, system_key, client_key))[at],
        ({
            let f = command_frame(c, command_key(c, system_key, client_key));
            let tampered = f.update(at, byte);
            let n = f.len() - HMAC_TAG_SIZE;
            &&& MessageType::of_tag(tampered[7]).is_command()
            &&& frame_len_at(tampered, 0) == tampered.len()
            &&& at < n ==> tag_of(
                frame_key(tampered, system_key, client_key),
                tampered.subrange(0, n),
            ) != tag_of(command_key(c, system_key, client_key), unsigned_frame(c))
        }),
    ensures
        ({
            let f = command_frame(c, command_key(c, system_key, client_key));
            let tampered = f.update(at, byte);
            &&& frame_start(tampered, 0)
            &&& decode_at(tampered, 0, system_key, client_key) is Ok
            &&& !decode_at(tampered, 0, system_key, client_key)->Ok_0.1
        }),
{
    let key = command_key(c, system_key, client_key);
    let f = command_frame(c, key);
    let t = f.update(at, byte);
    let n = f.len() - HMAC_TAG_SIZE;
    lemma_frame_layout(c, key);
    assert(t.subrange(0, 4) =~= f.subrange(0, 4));
    assert(f.subrange(0, n) =~= unsigned_frame(c));
    assert(f.subrange(n, f.len() as int) =~= tag_of(key, unsigned_frame(c)));
    assert(t.subrange(0, t.len() as int) =~= t);
    assert(decode_at(t, 0, system_key, client_key) == Ok::<
        (RegisterCommandView, bool),
        TransferError,
    >((frame_command(t), frame_authentic(t, system_key, client_key))));
    if at < n {
        assert(t.subrange(n, t.len() as int) =~= f.subrange(n, f.len() as int));
    } else {
        assert(t.subrange(0, n) =~= f.subrange(0, n));
        assert(t[7] == f[7]);
        assert(frame_key(t, system_key, client_key) == key);
        assert(t.subrange(n, t.len() as int)[at - n] == byte);
        assert(f.subrange(n, f.len() as int)[at - n] == f[at]);
    }
}

/// Different commands have different frames, whatever the keys.
pub proof fn lemma_frames_differ(
    a: RegisterCommandView,
    b: RegisterCommandView,
    key_a: Seq<u8>,
    key_b: Seq<u8>,
)
    requires
        well_sized(a),
        well_sized(b),
        command_frame(a, key_a) == command_frame(b, key_b),
    ensures
        a == b,
{
    lemma_frame_holds_command(a, key_a);
    lemma_frame_holds_command(b, key_b);
}

} // verus!
