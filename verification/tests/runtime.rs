use atomic_register::client::{fan_out, route, send_frame, RetryTracker, Route};
use atomic_register::domain::{
    ClientCommandHeader, ClientRegisterCommand, ClientRegisterCommandContent, OperationComplete,
    OperationReturn, ReadReturn, RegisterCommand, SectorVec, StatusCode, SystemCommandHeader,
    SystemRegisterCommand, SystemRegisterCommandContent,
};
use atomic_register::register::{Broadcast, Phase, Send};
use atomic_register::mac::message_tag;
use atomic_register::runtime::{
    advance, check_configuration, dispatch, location_index, receive, worker_dir_name, worker_of,
    ConfigError, Dispatch, Progress, Received,
};
use atomic_register::transfer::{find_frame_start, serialize_register_command, TransferError};
use hmac::{Hmac, Mac, NewMac};
use sha2::Sha256;
use std::sync::Arc;

fn page(byte: u8) -> SectorVec {
    SectorVec(vec![byte; 4096])
}

fn read(request_identifier: u64, sector_idx: u64) -> RegisterCommand {
    RegisterCommand::Client(ClientRegisterCommand {
        header: ClientCommandHeader { request_identifier, sector_idx },
        content: ClientRegisterCommandContent::Read,
    })
}

fn write(request_identifier: u64, sector_idx: u64) -> RegisterCommand {
    RegisterCommand::Client(ClientRegisterCommand {
        header: ClientCommandHeader { request_identifier, sector_idx },
        content: ClientRegisterCommandContent::Write { data: page(1) },
    })
}

fn message(from: u8, read_ident: u64, sector_idx: u64, content: SystemRegisterCommandContent) -> SystemRegisterCommand {
    SystemRegisterCommand {
        header: SystemCommandHeader { process_identifier: from, msg_ident: 7, read_ident, sector_idx },
        content,
    }
}

fn write_proc() -> SystemRegisterCommandContent {
    SystemRegisterCommandContent::WriteProc { timestamp: 1, write_rank: 1, data_to_write: page(2) }
}

fn value() -> SystemRegisterCommandContent {
    SystemRegisterCommandContent::Value { timestamp: 1, write_rank: 1, sector_data: page(2) }
}

fn pairs(sends: &[Send]) -> Vec<(usize, SystemRegisterCommand)> {
    sends.iter().map(|s| (s.target, (*s.cmd).clone())).collect()
}

#[test]
fn configurations_are_checked() {
    assert_eq!(check_configuration(1, 1, 1), Ok(()));
    assert_eq!(check_configuration(3, 3, 20), Ok(()));
    assert_eq!(check_configuration(255, 255, u64::MAX), Ok(()));
    assert_eq!(check_configuration(0, 1, 20), Err(ConfigError::ProcessCount));
    assert_eq!(check_configuration(256, 1, 20), Err(ConfigError::ProcessCount));
    assert_eq!(check_configuration(3, 0, 20), Err(ConfigError::SelfRank));
    assert_eq!(check_configuration(3, 4, 20), Err(ConfigError::SelfRank));
    assert_eq!(check_configuration(3, 2, 0), Err(ConfigError::MaxSector));
    assert_eq!(location_index(1), 0);
    assert_eq!(location_index(255), 254);
}

#[test]
fn workers_own_their_sectors_and_directories() {
    assert_eq!(worker_of(0), 0);
    assert_eq!(worker_of(5), 1);
    assert_eq!(worker_of(u64::MAX), 3);
    assert_eq!(worker_dir_name(0), "0");
    assert_eq!(worker_dir_name(3), "3");
    assert_eq!(worker_dir_name(255), "255");
}

#[test]
fn clients_are_told_what_is_wrong_and_processes_are_not() {
    // authentic and in range: to the worker
    match dispatch(read(1, 6), true, 20) {
        Dispatch::Client { worker, cmd } => {
            assert_eq!(worker, 2);
            assert_eq!(RegisterCommand::Client(cmd), read(1, 6));
        }
        _ => panic!("expected a client command"),
    }
    match dispatch(RegisterCommand::System(message(2, 1, 7, write_proc())), true, 20) {
        Dispatch::System { worker, cmd } => {
            assert_eq!(worker, 3);
            assert_eq!(cmd, message(2, 1, 7, write_proc()));
        }
        _ => panic!("expected a system command"),
    }
    // not authentic
    match dispatch(read(9, 6), false, 20) {
        Dispatch::Reply(op) => assert_eq!(
            op,
            OperationComplete {
                status_code: StatusCode::AuthFailure,
                request_identifier: 9,
                op_return: OperationReturn::Read(ReadReturn { read_data: None }),
            }
        ),
        _ => panic!("expected a reply"),
    }
    match dispatch(write(10, 6), false, 20) {
        Dispatch::Reply(op) => assert_eq!(
            op,
            OperationComplete {
                status_code: StatusCode::AuthFailure,
                request_identifier: 10,
                op_return: OperationReturn::Write,
            }
        ),
        _ => panic!("expected a reply"),
    }
    assert!(matches!(
        dispatch(RegisterCommand::System(message(2, 1, 7, value())), false, 20),
        Dispatch::Drop
    ));
    // out of range: the first index that does not exist is max_sector
    assert!(matches!(dispatch(read(1, 19), true, 20), Dispatch::Client { .. }));
    match dispatch(write(11, 20), true, 20) {
        Dispatch::Reply(op) => {
            assert_eq!(op.status_code, StatusCode::InvalidSectorIndex);
            assert_eq!(op.request_identifier, 11);
            assert_eq!(op.op_return, OperationReturn::Write);
        }
        _ => panic!("expected a reply"),
    }
    assert!(matches!(
        dispatch(RegisterCommand::System(message(2, 1, 20, value())), true, 20),
        Dispatch::Drop
    ));
    // both faults: the client hears of the first
    match dispatch(read(12, 99), false, 20) {
        Dispatch::Reply(op) => assert_eq!(op.status_code, StatusCode::AuthFailure),
        _ => panic!("expected a reply"),
    }
}

#[test]
fn a_connection_is_read_frame_by_frame() {
    let client_key = [2u8; 32];
    let system_key = [3u8; 64];
    let mut stream: Vec<u8> = vec![9, 9, 9];
    serialize_register_command(&read(1, 6), &mut stream, &client_key).unwrap();
    stream.extend_from_slice(&[0x61, 0x74, 0x64, 0x64, 0, 0, 0, 0x99]);
    serialize_register_command(&write(2, 7), &mut stream, &[0u8; 32]).unwrap();
    serialize_register_command(
        &RegisterCommand::System(message(2, 1, 30, SystemRegisterCommandContent::Ack)),
        &mut stream,
        &system_key,
    )
    .unwrap();
    stream.extend_from_slice(&[0x61, 0x74, 0x64, 0x64, 0, 0]);
    let mut data: &[u8] = &stream[..];
    assert!(matches!(
        receive(&mut data, &system_key, &client_key, 20),
        Received::Command(Dispatch::Client { worker: 2, .. })
    ));
    assert!(matches!(receive(&mut data, &system_key, &client_key, 20), Received::Skipped));
    match receive(&mut data, &system_key, &client_key, 20) {
        Received::Command(Dispatch::Reply(op)) => {
            assert_eq!(op.status_code, StatusCode::AuthFailure);
            assert_eq!(op.request_identifier, 2);
        }
        _ => panic!("expected a reply"),
    }
    assert!(matches!(
        receive(&mut data, &system_key, &client_key, 20),
        Received::Command(Dispatch::Drop)
    ));
    assert!(matches!(receive(&mut data, &system_key, &client_key, 20), Received::End));
    assert!(data.is_empty());
    assert!(matches!(receive(&mut data, &system_key, &client_key, 20), Received::End));
}

#[test]
fn messages_find_their_way() {
    assert_eq!(route(1, 2, 3), Route::Remote { index: 0 });
    assert_eq!(route(2, 2, 3), Route::Local);
    assert_eq!(route(3, 2, 3), Route::Remote { index: 2 });
    assert_eq!(route(0, 2, 3), Route::Nowhere);
    assert_eq!(route(4, 2, 3), Route::Nowhere);
    let broadcast = Broadcast { cmd: Arc::new(message(2, 5, 6, write_proc())) };
    let sends = fan_out(&broadcast, 3);
    assert_eq!(
        pairs(&sends),
        vec![
            (1, message(2, 5, 6, write_proc())),
            (2, message(2, 5, 6, write_proc())),
            (3, message(2, 5, 6, write_proc()))
        ]
    );
    assert!(fan_out(&broadcast, 0).is_empty());
}

#[test]
fn a_message_travels_as_its_frame_under_the_system_key() {
    let key = [3u8; 64];
    let send = Send { cmd: Arc::new(message(2, 5, 6, value())), target: 1 };
    let mut expected: Vec<u8> = Vec::new();
    serialize_register_command(&RegisterCommand::System(message(2, 5, 6, value())), &mut expected, &key)
        .unwrap();
    assert_eq!(send_frame(&send, &key), Ok(expected));
    let broken = Send {
        cmd: Arc::new(message(
            2,
            5,
            6,
            SystemRegisterCommandContent::Value {
                timestamp: 1,
                write_rank: 1,
                sector_data: SectorVec(vec![1, 2, 3]),
            },
        )),
        target: 1,
    };
    assert_eq!(send_frame(&broken, &key), Err(TransferError::InvalidData));
}

#[test]
fn what_is_not_answered_is_sent_again() {
    let mut tracker = RetryTracker::new();
    assert_eq!(tracker.len(), 0);
    let ask = message(1, 5, 6, SystemRegisterCommandContent::ReadProc);
    tracker.broadcast(&Broadcast { cmd: Arc::new(ask.clone()) }, 3);
    assert_eq!(
        pairs(&tracker.due()),
        vec![(1, ask.clone()), (2, ask.clone()), (3, ask.clone())]
    );
    // a Value or an Ack is sent once
    tracker.broadcast(&Broadcast { cmd: Arc::new(message(1, 5, 6, value())) }, 3);
    tracker.broadcast(
        &Broadcast { cmd: Arc::new(message(1, 5, 6, SystemRegisterCommandContent::Ack)) },
        3,
    );
    assert_eq!(tracker.len(), 3);
    // answers of another read, of another sector, of the wrong kind: nothing changes
    tracker.received(&message(2, 4, 6, value()));
    tracker.received(&message(2, 5, 7, value()));
    tracker.received(&message(2, 5, 6, SystemRegisterCommandContent::Ack));
    tracker.received(&message(2, 5, 6, SystemRegisterCommandContent::ReadProc));
    tracker.received(&message(9, 5, 6, value()));
    assert_eq!(tracker.len(), 3);
    // the answer of process 2
    tracker.received(&message(2, 5, 6, value()));
    assert_eq!(pairs(&tracker.due()), vec![(1, ask.clone()), (3, ask.clone())]);
    // the write phase of the same read begins
    let impose = message(1, 5, 6, write_proc());
    tracker.broadcast(&Broadcast { cmd: Arc::new(impose.clone()) }, 3);
    assert_eq!(tracker.len(), 5);
    tracker.received(&message(3, 5, 6, SystemRegisterCommandContent::Ack));
    assert_eq!(
        pairs(&tracker.due()),
        vec![(1, ask.clone()), (3, ask.clone()), (1, impose.clone()), (2, impose.clone())]
    );
    // another read waits too, and a read of another worker with the same
    // identifier on another sector
    let other = message(1, 6, 2, SystemRegisterCommandContent::ReadProc);
    tracker.broadcast(&Broadcast { cmd: Arc::new(other.clone()) }, 1);
    let twin = message(1, 5, 7, SystemRegisterCommandContent::ReadProc);
    tracker.broadcast(&Broadcast { cmd: Arc::new(twin.clone()) }, 1);
    // the end of a phase on another sector changes nothing here
    tracker.phase_ended(5, 8, Phase::Write);
    assert_eq!(tracker.len(), 6);
    // the read phase of read 5 on sector 6 is over: its questions wait no longer
    tracker.phase_ended(5, 6, Phase::Read);
    assert_eq!(
        pairs(&tracker.due()),
        vec![(1, impose.clone()), (2, impose.clone()), (1, other.clone()), (1, twin.clone())]
    );
    // the register is done with read 5 on sector 6
    tracker.phase_ended(5, 6, Phase::Write);
    assert_eq!(pairs(&tracker.due()), vec![(1, other), (1, twin.clone())]);
    tracker.phase_ended(6, 2, Phase::Write);
    assert_eq!(pairs(&tracker.due()), vec![(1, twin)]);
    tracker.phase_ended(5, 7, Phase::Read);
    assert!(tracker.due().is_empty());
}

/// What `advance` makes of a stream that comes in pieces of `piece` bytes.
fn in_pieces(stream: &[u8], piece: usize, max_sector: u64) -> Vec<String> {
    let system_key = [3u8; 64];
    let client_key = [2u8; 32];
    let mut seen: Vec<String> = Vec::new();
    let mut buffer: Vec<u8> = Vec::new();
    for chunk in stream.chunks(piece) {
        buffer.extend_from_slice(chunk);
        loop {
            let (progress, done) = advance(&buffer, &system_key, &client_key, max_sector);
            assert!(done <= buffer.len());
            buffer.drain(..done);
            match progress {
                Progress::NeedMore => break,
                Progress::Skipped => seen.push("skipped".to_string()),
                Progress::Command(Dispatch::Drop) => seen.push("drop".to_string()),
                Progress::Command(Dispatch::Reply(op)) => seen.push(format!("reply {:?}", op)),
                Progress::Command(Dispatch::Client { worker, cmd }) => {
                    seen.push(format!("client {} {:?}", worker, cmd.header))
                }
                Progress::Command(Dispatch::System { worker, cmd }) => {
                    seen.push(format!("system {} {:?}", worker, cmd.header))
                }
            }
        }
        // what is kept is short unless a frame has begun
        if find_frame_start(&buffer).is_none() {
            assert!(buffer.len() <= 3);
        }
    }
    seen
}

#[test]
fn a_stream_gives_the_same_commands_in_pieces_of_any_size() {
    let client_key = [2u8; 32];
    let system_key = [3u8; 64];
    let mut stream: Vec<u8> = vec![9, 0x61, 0x74, 0x64, 9, 9];
    serialize_register_command(&read(1, 6), &mut stream, &client_key).unwrap();
    stream.extend_from_slice(&[0x61, 0x74, 0x64, 0x64, 0, 0, 0, 0x99, 0x61, 0x74]);
    serialize_register_command(&write(2, 7), &mut stream, &[0u8; 32]).unwrap();
    serialize_register_command(
        &RegisterCommand::System(message(2, 1, 3, write_proc())),
        &mut stream,
        &system_key,
    )
    .unwrap();
    serialize_register_command(&write(3, 70), &mut stream, &client_key).unwrap();
    stream.extend_from_slice(&[1, 2, 3, 4, 5, 6, 7, 8, 9, 10]);
    let whole = in_pieces(&stream, stream.len(), 20);
    assert_eq!(whole.len(), 5);
    assert!(whole[0].starts_with("client 2 "));
    assert_eq!(whole[1], "skipped");
    assert!(whole[2].starts_with("reply ") && whole[2].contains("AuthFailure"));
    assert!(whole[3].starts_with("system 3 "));
    assert!(whole[4].starts_with("reply ") && whole[4].contains("InvalidSectorIndex"));
    for piece in [1usize, 2, 3, 5, 7, 64, 1000, 4096, 5000] {
        assert_eq!(in_pieces(&stream, piece, 20), whole, "pieces of {}", piece);
    }
}

#[test]
fn the_first_magic_number_is_found() {
    assert_eq!(find_frame_start(&[]), None);
    assert_eq!(find_frame_start(&[0x61, 0x74, 0x64]), None);
    assert_eq!(find_frame_start(&[0x61, 0x74, 0x64, 0x64]), Some(0));
    assert_eq!(find_frame_start(&[0x61, 0x61, 0x74, 0x64, 0x64, 0x61, 0x74, 0x64, 0x64]), Some(1));
    assert_eq!(find_frame_start(&[0x64, 0x64, 0x74, 0x61, 0x61, 0x74, 0x64, 0x63]), None);
}

#[test]
fn the_tag_is_the_hmac_sha256() {
    // the second test vector of RFC 4231
    let tag = message_tag(b"Jefe", b"what do ya want for nothing?");
    assert_eq!(
        tag,
        vec![
            0x5b, 0xdc, 0xc1, 0x46, 0xbf, 0x60, 0x75, 0x4e, 0x6a, 0x04, 0x24, 0x26, 0x08, 0x95,
            0x75, 0xc7, 0x5a, 0x00, 0x3f, 0x08, 0x9d, 0x27, 0x39, 0x83, 0x9d, 0xec, 0x58, 0xb9,
            0x64, 0xec, 0x38, 0x43
        ]
    );
    let mut mac = Hmac::<Sha256>::new_from_slice(&[7u8; 64]).unwrap();
    mac.update(&[1, 2, 3]);
    assert_eq!(message_tag(&[7u8; 64], &[1, 2, 3]), mac.finalize().into_bytes().to_vec());
    assert_ne!(message_tag(&[7u8; 64], &[1, 2, 3]), message_tag(&[8u8; 64], &[1, 2, 3]));
}
