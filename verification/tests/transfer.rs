use atomic_register::domain::{
    ClientCommandHeader, ClientRegisterCommand, ClientRegisterCommandContent, OperationComplete,
    OperationReturn, ReadReturn, RegisterCommand, SectorVec, StatusCode, SystemCommandHeader,
    SystemRegisterCommand, SystemRegisterCommandContent, MAGIC_NUMBER,
};
use atomic_register::message::MessageType;
use atomic_register::transfer::{
    deserialize_register_command, serialize_operation_complete_command,
    serialize_register_command, TransferError,
};
use hmac::{Hmac, Mac, NewMac};
use sha2::Sha256;
use uuid::Uuid;

fn get_random_sector_vec(seed: u64) -> SectorVec {
    let mut state = seed.wrapping_mul(6364136223846793005).wrapping_add(1442695040888963407);
    let mut vec = Vec::new();
    for _i in 0..4096 {
        state = state.wrapping_mul(6364136223846793005).wrapping_add(1442695040888963407);
        vec.push((state >> 33) as u8);
    }
    SectorVec(vec)
}

fn hmac_of(key: &[u8], data: &[u8]) -> Vec<u8> {
    let mut mac = Hmac::<Sha256>::new_from_slice(key).unwrap();
    mac.update(data);
    mac.finalize().into_bytes().to_vec()
}

fn read_cmd(request_identifier: u64, sector_idx: u64) -> RegisterCommand {
    RegisterCommand::Client(ClientRegisterCommand {
        header: ClientCommandHeader { request_identifier, sector_idx },
        content: ClientRegisterCommandContent::Read,
    })
}

fn frame_of(cmd: &RegisterCommand, key: &[u8]) -> Vec<u8> {
    let mut sink: Vec<u8> = Vec::new();
    serialize_register_command(cmd, &mut sink, key).expect("Could not serialize?");
    sink
}

#[test]
fn write_serialize_deserialize_is_identity() {
    // given
    let request_identifier = 7;
    let sector_idx = 8;
    let sector_data = get_random_sector_vec(1);
    let register_cmd = RegisterCommand::Client(ClientRegisterCommand {
        header: ClientCommandHeader { request_identifier, sector_idx },
        content: ClientRegisterCommandContent::Write { data: sector_data.clone() },
    });
    let mut sink: Vec<u8> = Vec::new();

    // when
    serialize_register_command(&register_cmd, &mut sink, &[0x00_u8; 32])
        .expect("Could not serialize?");
    let mut slice: &[u8] = &sink[..];
    let (deserialized_cmd, hmac_valid) =
        deserialize_register_command(&mut slice, &[0x00_u8; 64], &[0x00_u8; 32])
            .expect("Could not deserialize");

    // then
    assert!(hmac_valid);
    match deserialized_cmd {
        RegisterCommand::Client(ClientRegisterCommand {
            header,
            content: ClientRegisterCommandContent::Write { data },
        }) => {
            assert_eq!(header.sector_idx, sector_idx);
            assert_eq!(header.request_identifier, request_identifier);
            assert_eq!(data, sector_data);
        }
        _ => panic!("Expected Write command"),
    }
}

#[test]
fn read_proc_serialize_deserialize_is_identity() {
    // given
    let process_identifier = 3;
    let msg_ident = Uuid::new_v4().as_u128();
    let read_ident = 2134;
    let sector_idx = 8;
    let register_cmd = RegisterCommand::System(SystemRegisterCommand {
        header: SystemCommandHeader { process_identifier, msg_ident, read_ident, sector_idx },
        content: SystemRegisterCommandContent::ReadProc,
    });
    let mut sink: Vec<u8> = Vec::new();

    // when
    serialize_register_command(&register_cmd, &mut sink, &[0x00_u8; 32])
        .expect("Could not serialize?");
    let mut slice: &[u8] = &sink[..];
    let (deserialized_cmd, hmac_valid) =
        deserialize_register_command(&mut slice, &[0x00_u8; 64], &[0x00_u8; 32])
            .expect("Could not deserialize");

    // then
    assert!(hmac_valid);
    match deserialized_cmd {
        RegisterCommand::System(SystemRegisterCommand {
            header,
            content: SystemRegisterCommandContent::ReadProc,
        }) => {
            assert_eq!(header.process_identifier, process_identifier);
            assert_eq!(header.msg_ident, msg_ident);
            assert_eq!(header.read_ident, read_ident);
            assert_eq!(header.sector_idx, sector_idx);
        }
        _ => panic!("Expected ReadProc command"),
    }
}

#[test]
fn ack_serialize_deserialize_is_identity() {
    // given
    let process_identifier = 3;
    let msg_ident = Uuid::new_v4().as_u128();
    let read_ident = 2134;
    let sector_idx = 8;
    let register_cmd = RegisterCommand::System(SystemRegisterCommand {
        header: SystemCommandHeader { process_identifier, msg_ident, read_ident, sector_idx },
        content: SystemRegisterCommandContent::Ack,
    });
    let mut sink: Vec<u8> = Vec::new();

    // when
    serialize_register_command(&register_cmd, &mut sink, &[0x00_u8; 32])
        .expect("Could not serialize?");
    let mut slice: &[u8] = &sink[..];
    let (deserialized_cmd, hmac_valid) =
        deserialize_register_command(&mut slice, &[0x00_u8; 64], &[0x00_u8; 32])
            .expect("Could not deserialize");

    // then
    assert!(hmac_valid);
    match deserialized_cmd {
        RegisterCommand::System(SystemRegisterCommand {
            header,
            content: SystemRegisterCommandContent::Ack,
        }) => {
            assert_eq!(header.process_identifier, process_identifier);
            assert_eq!(header.msg_ident, msg_ident);
            assert_eq!(header.read_ident, read_ident);
            assert_eq!(header.sector_idx, sector_idx);
        }
        _ => panic!("Expected Ack command"),
    }
}

#[test]
fn value_serialize_deserialize_is_identity() {
    // given
    let process_identifier = 3;
    let msg_ident = Uuid::new_v4().as_u128();
    let read_ident = 2134;
    let sector_idx = 8;
    let timestamp = 1112;
    let write_rank = 3;
    let sector_data = get_random_sector_vec(2);
    let register_cmd = RegisterCommand::System(SystemRegisterCommand {
        header: SystemCommandHeader { process_identifier, msg_ident, read_ident, sector_idx },
        content: SystemRegisterCommandContent::Value {
            timestamp,
            write_rank,
            sector_data: sector_data.clone(),
        },
    });
    let mut sink: Vec<u8> = Vec::new();

    // when
    serialize_register_command(&register_cmd, &mut sink, &[0x00_u8; 32])
        .expect("Could not serialize?");
    let mut slice: &[u8] = &sink[..];
    let (deserialized_cmd, hmac_valid) =
        deserialize_register_command(&mut slice, &[0x00_u8; 64], &[0x00_u8; 32])
            .expect("Could not deserialize");

    // then
    assert!(hmac_valid);
    match deserialized_cmd {
        RegisterCommand::System(SystemRegisterCommand {
            header,
            content:
                SystemRegisterCommandContent::Value { timestamp: ts, write_rank: wr, sector_data: sd },
        }) => {
            assert_eq!(header.process_identifier, process_identifier);
            assert_eq!(header.msg_ident, msg_ident);
            assert_eq!(header.read_ident, read_ident);
            assert_eq!(header.sector_idx, sector_idx);
            assert_eq!(ts, timestamp);
            assert_eq!(wr, write_rank);
            assert_eq!(sd, sector_data);
        }
        _ => panic!("Expected Value command"),
    }
}

#[test]
fn write_proc_serialize_deserialize_is_identity() {
    // given
    let process_identifier = 3;
    let msg_ident = Uuid::new_v4().as_u128();
    let read_ident = 2134;
    let sector_idx = 8;
    let timestamp = 1112;
    let write_rank = 3;
    let data_to_write = get_random_sector_vec(3);
    let register_cmd = RegisterCommand::System(SystemRegisterCommand {
        header: SystemCommandHeader { process_identifier, msg_ident, read_ident, sector_idx },
        content: SystemRegisterCommandContent::WriteProc {
            timestamp,
            write_rank,
            data_to_write: data_to_write.clone(),
        },
    });
    let mut sink: Vec<u8> = Vec::new();

    // when
    serialize_register_command(&register_cmd, &mut sink, &[0x00_u8; 32])
        .expect("Could not serialize?");
    let mut slice: &[u8] = &sink[..];
    let (deserialized_cmd, hmac_valid) =
        deserialize_register_command(&mut slice, &[0x00_u8; 64], &[0x00_u8; 32])
            .expect("Could not deserialize");

    // then
    assert!(hmac_valid);
    match deserialized_cmd {
        RegisterCommand::System(SystemRegisterCommand {
            header,
            content:
                SystemRegisterCommandContent::WriteProc {
                    timestamp: ts,
                    write_rank: wr,
                    data_to_write: dtw,
                },
        }) => {
            assert_eq!(header.process_identifier, process_identifier);
            assert_eq!(header.msg_ident, msg_ident);
            assert_eq!(header.read_ident, read_ident);
            assert_eq!(header.sector_idx, sector_idx);
            assert_eq!(ts, timestamp);
            assert_eq!(wr, write_rank);
            assert_eq!(dtw, data_to_write);
        }
        _ => panic!("Expected WriteProc command"),
    }
}

#[test]
fn read_serialize_deserialize_is_identity() {
    let cmd = read_cmd(7, 8);
    let sink = frame_of(&cmd, &[5u8; 32]);
    let mut slice: &[u8] = &sink[..];
    let (decoded, hmac_valid) =
        deserialize_register_command(&mut slice, &[1u8; 64], &[5u8; 32]).unwrap();
    assert!(hmac_valid);
    assert_eq!(decoded, cmd);
    assert!(slice.is_empty());
}

#[test]
fn read_frame_has_exact_bytes() {
    let key = [5u8; 32];
    let sink = frame_of(&read_cmd(7, 8), &key);
    let mut expected: Vec<u8> = vec![0x61, 0x74, 0x64, 0x64, 0, 0, 0, 0x01];
    expected.extend_from_slice(&[0, 0, 0, 0, 0, 0, 0, 7]);
    expected.extend_from_slice(&[0, 0, 0, 0, 0, 0, 0, 8]);
    let tag = hmac_of(&key, &expected);
    assert_eq!(tag.len(), 32);
    expected.extend_from_slice(&tag);
    assert_eq!(sink, expected);
    assert_eq!(sink.len(), 8 + 16 + 32);
    assert_eq!(&sink[..4], &MAGIC_NUMBER[..]);
}

#[test]
fn write_proc_frame_has_exact_bytes() {
    let key = [9u8; 64];
    let data = get_random_sector_vec(4);
    let cmd = RegisterCommand::System(SystemRegisterCommand {
        header: SystemCommandHeader {
            process_identifier: 2,
            msg_ident: 0x0102030405060708090a0b0c0d0e0f10,
            read_ident: 0x1122334455667788,
            sector_idx: 0x0100,
        },
        content: SystemRegisterCommandContent::WriteProc {
            timestamp: 0x0a0b,
            write_rank: 7,
            data_to_write: data.clone(),
        },
    });
    let sink = frame_of(&cmd, &key);
    let mut expected: Vec<u8> = vec![0x61, 0x74, 0x64, 0x64, 0, 0, 2, 0x05];
    expected.extend_from_slice(&[1, 2, 3, 4, 5, 6, 7, 8, 9, 10, 11, 12, 13, 14, 15, 16]);
    expected.extend_from_slice(&[0x11, 0x22, 0x33, 0x44, 0x55, 0x66, 0x77, 0x88]);
    expected.extend_from_slice(&[0, 0, 0, 0, 0, 0, 1, 0]);
    expected.extend_from_slice(&[0, 0, 0, 0, 0, 0, 0x0a, 0x0b]);
    expected.extend_from_slice(&[0, 0, 0, 0, 0, 0, 0]);
    expected.push(7);
    expected.extend_from_slice(&data.0);
    let tag = hmac_of(&key, &expected);
    expected.extend_from_slice(&tag);
    assert_eq!(sink, expected);
    assert_eq!(sink.len(), 8 + 48 + 4096 + 32);
}

#[test]
fn msg_ident_travels_as_the_bytes_of_its_uuid() {
    let uuid = Uuid::new_v4();
    let cmd = RegisterCommand::System(SystemRegisterCommand {
        header: SystemCommandHeader {
            process_identifier: 1,
            msg_ident: uuid.as_u128(),
            read_ident: 1,
            sector_idx: 1,
        },
        content: SystemRegisterCommandContent::Ack,
    });
    let sink = frame_of(&cmd, &[0u8; 64]);
    assert_eq!(&sink[8..24], &uuid.as_bytes()[..]);
}

#[test]
fn serialize_appends_to_the_writer() {
    let mut sink: Vec<u8> = vec![0xAA, 0xBB];
    serialize_register_command(&read_cmd(1, 2), &mut sink, &[0u8; 32]).unwrap();
    assert_eq!(&sink[..2], &[0xAA, 0xBB]);
    assert_eq!(sink.len(), 2 + 56);
}

#[test]
fn serialize_refuses_a_sector_of_another_size() {
    let short = RegisterCommand::Client(ClientRegisterCommand {
        header: ClientCommandHeader { request_identifier: 1, sector_idx: 2 },
        content: ClientRegisterCommandContent::Write { data: SectorVec(vec![1; 4095]) },
    });
    let mut sink: Vec<u8> = vec![7];
    assert_eq!(
        serialize_register_command(&short, &mut sink, &[0u8; 32]),
        Err(TransferError::InvalidData)
    );
    assert_eq!(sink, vec![7]);

    let long = RegisterCommand::System(SystemRegisterCommand {
        header: SystemCommandHeader {
            process_identifier: 1,
            msg_ident: 1,
            read_ident: 1,
            sector_idx: 1,
        },
        content: SystemRegisterCommandContent::Value {
            timestamp: 1,
            write_rank: 1,
            sector_data: SectorVec(vec![1; 4097]),
        },
    });
    assert_eq!(
        serialize_register_command(&long, &mut sink, &[0u8; 32]),
        Err(TransferError::InvalidData)
    );
    let empty = RegisterCommand::System(SystemRegisterCommand {
        header: SystemCommandHeader {
            process_identifier: 1,
            msg_ident: 1,
            read_ident: 1,
            sector_idx: 1,
        },
        content: SystemRegisterCommandContent::WriteProc {
            timestamp: 1,
            write_rank: 1,
            data_to_write: SectorVec(vec![]),
        },
    });
    assert_eq!(
        serialize_register_command(&empty, &mut sink, &[0u8; 32]),
        Err(TransferError::InvalidData)
    );
    assert_eq!(sink, vec![7]);
}

#[test]
fn decoder_resyncs_behind_seven_bytes() {
    // Stream = 7 bytes without the magic number, then the frame of Read{rid=7, sector=8}.
    let key = [3u8; 32];
    let mut stream: Vec<u8> = vec![0x13, 0x61, 0x74, 0x64, 0x00, 0xff, 0x61];
    stream.extend_from_slice(&frame_of(&read_cmd(7, 8), &key));
    let mut slice: &[u8] = &stream[..];
    let (decoded, hmac_valid) =
        deserialize_register_command(&mut slice, &[0u8; 64], &key).unwrap();
    assert_eq!(decoded, read_cmd(7, 8));
    assert!(hmac_valid);
    assert!(slice.is_empty());
}

#[test]
fn decoder_resyncs_behind_any_prefix_of_the_magic_number() {
    let key = [3u8; 32];
    let frame = frame_of(&read_cmd(70, 80), &key);
    for cut in 0..4 {
        let mut stream: Vec<u8> = vec![1, 2, 3];
        stream.extend_from_slice(&MAGIC_NUMBER[..cut]);
        stream.extend_from_slice(&frame);
        let mut slice: &[u8] = &stream[..];
        let (decoded, hmac_valid) =
            deserialize_register_command(&mut slice, &[0u8; 64], &key).unwrap();
        assert_eq!(decoded, read_cmd(70, 80));
        assert!(hmac_valid);
    }
}

#[test]
fn decoder_reads_frame_after_frame() {
    let client_key = [3u8; 32];
    let system_key = [4u8; 64];
    let ack = RegisterCommand::System(SystemRegisterCommand {
        header: SystemCommandHeader {
            process_identifier: 2,
            msg_ident: 99,
            read_ident: 5,
            sector_idx: 6,
        },
        content: SystemRegisterCommandContent::Ack,
    });
    let mut stream = frame_of(&read_cmd(1, 2), &client_key);
    stream.extend_from_slice(&[0xde, 0xad]);
    stream.extend_from_slice(&frame_of(&ack, &system_key));
    let mut slice: &[u8] = &stream[..];
    let first = deserialize_register_command(&mut slice, &system_key, &client_key).unwrap();
    assert_eq!(first, (read_cmd(1, 2), true));
    assert_eq!(slice.len(), 2 + 8 + 32 + 32);
    let second = deserialize_register_command(&mut slice, &system_key, &client_key).unwrap();
    assert_eq!(second, (ack, true));
    assert!(slice.is_empty());
    assert_eq!(
        deserialize_register_command(&mut slice, &system_key, &client_key),
        Err(TransferError::UnexpectedEof)
    );
}

#[test]
fn decoder_tells_a_wrong_key() {
    let frame = frame_of(&read_cmd(7, 8), &[3u8; 32]);
    let mut slice: &[u8] = &frame[..];
    let (decoded, hmac_valid) =
        deserialize_register_command(&mut slice, &[3u8; 64], &[4u8; 32]).unwrap();
    assert_eq!(decoded, read_cmd(7, 8));
    assert!(!hmac_valid);

    // A system message is checked with the system key, not with the client key.
    let ack = RegisterCommand::System(SystemRegisterCommand {
        header: SystemCommandHeader {
            process_identifier: 2,
            msg_ident: 99,
            read_ident: 5,
            sector_idx: 6,
        },
        content: SystemRegisterCommandContent::Ack,
    });
    let frame = frame_of(&ack, &[3u8; 32]);
    let mut slice: &[u8] = &frame[..];
    let (_, with_client_key) =
        deserialize_register_command(&mut slice, &[9u8; 64], &[3u8; 32]).unwrap();
    assert!(!with_client_key);
}

#[test]
fn flipping_any_bit_of_a_frame_is_detected() {
    let key = [3u8; 32];
    let frame = frame_of(&read_cmd(7, 8), &key);
    for at in 0..frame.len() {
        for bit in 0..8 {
            let mut tampered = frame.clone();
            tampered[at] ^= 1 << bit;
            let mut slice: &[u8] = &tampered[..];
            match deserialize_register_command(&mut slice, &[0u8; 64], &key) {
                Ok((_, hmac_valid)) => assert!(!hmac_valid, "byte {} bit {}", at, bit),
                Err(_) => assert!(at < 8, "byte {} bit {}", at, bit),
            }
        }
    }
}

#[test]
fn flipping_a_bit_of_the_tag_keeps_the_command() {
    let key = [3u8; 64];
    let data = get_random_sector_vec(5);
    let cmd = RegisterCommand::System(SystemRegisterCommand {
        header: SystemCommandHeader {
            process_identifier: 2,
            msg_ident: 99,
            read_ident: 5,
            sector_idx: 6,
        },
        content: SystemRegisterCommandContent::Value {
            timestamp: 1,
            write_rank: 2,
            sector_data: data,
        },
    });
    let mut frame = frame_of(&cmd, &key);
    let last = frame.len() - 1;
    frame[last] ^= 0x80;
    let mut slice: &[u8] = &frame[..];
    assert_eq!(
        deserialize_register_command(&mut slice, &key, &[0u8; 32]),
        Ok((cmd, false))
    );
}

#[test]
fn value_tag_flipped_to_write_proc_is_detected() {
    // 0x04 and 0x05 differ in one bit and announce frames of one length.
    let key = [3u8; 64];
    let cmd = RegisterCommand::System(SystemRegisterCommand {
        header: SystemCommandHeader {
            process_identifier: 2,
            msg_ident: 99,
            read_ident: 5,
            sector_idx: 6,
        },
        content: SystemRegisterCommandContent::Value {
            timestamp: 1,
            write_rank: 2,
            sector_data: get_random_sector_vec(6),
        },
    });
    let mut frame = frame_of(&cmd, &key);
    frame[7] ^= 0x01;
    let mut slice: &[u8] = &frame[..];
    let (decoded, hmac_valid) =
        deserialize_register_command(&mut slice, &key, &[0u8; 32]).unwrap();
    assert!(matches!(
        decoded,
        RegisterCommand::System(SystemRegisterCommand {
            content: SystemRegisterCommandContent::WriteProc { .. },
            ..
        })
    ));
    assert!(!hmac_valid);
}

#[test]
fn decoder_reports_the_end_of_the_bytes() {
    let key = [3u8; 32];
    let frame = frame_of(&read_cmd(7, 8), &key);
    // nothing at all, no magic number, and every proper prefix of a frame
    for len in 0..frame.len() {
        let mut slice: &[u8] = &frame[..len];
        assert_eq!(
            deserialize_register_command(&mut slice, &[0u8; 64], &key),
            Err(TransferError::UnexpectedEof),
            "prefix of {} bytes",
            len
        );
        assert!(slice.is_empty());
    }
    let garbage = [7u8; 100];
    let mut slice: &[u8] = &garbage[..];
    assert_eq!(
        deserialize_register_command(&mut slice, &[0u8; 64], &key),
        Err(TransferError::UnexpectedEof)
    );
}

#[test]
fn decoder_refuses_a_type_that_is_no_command() {
    for tag in [0x00u8, 0x07, 0x40, 0x41, 0x42, 0x43, 0x46, 0x47, 0xff] {
        let mut stream: Vec<u8> = vec![0x61, 0x74, 0x64, 0x64, 0, 0, 0, tag];
        stream.extend_from_slice(&[0x55; 10]);
        let mut slice: &[u8] = &stream[..];
        assert_eq!(
            deserialize_register_command(&mut slice, &[0u8; 64], &[0u8; 32]),
            Err(TransferError::InvalidData),
            "tag {}",
            tag
        );
        // the reader stands behind the type header
        assert_eq!(slice, &[0x55; 10][..]);
    }
}

#[test]
fn decoder_goes_on_behind_a_refused_frame() {
    let key = [3u8; 32];
    let mut stream: Vec<u8> = vec![0x61, 0x74, 0x64, 0x64, 0, 0, 0, 0x41];
    stream.extend_from_slice(&frame_of(&read_cmd(7, 8), &key));
    let mut slice: &[u8] = &stream[..];
    assert_eq!(
        deserialize_register_command(&mut slice, &[0u8; 64], &key),
        Err(TransferError::InvalidData)
    );
    assert_eq!(
        deserialize_register_command(&mut slice, &[0u8; 64], &key),
        Ok((read_cmd(7, 8), true))
    );
}

#[test]
fn message_type_tags_and_sizes() {
    let tags: [(u8, MessageType, usize); 8] = [
        (0x01, MessageType::Read, 48),
        (0x02, MessageType::Write, 4144),
        (0x03, MessageType::ReadProc, 64),
        (0x04, MessageType::Value, 4176),
        (0x05, MessageType::WriteProc, 4176),
        (0x06, MessageType::Ack, 64),
        (0x41, MessageType::ReadResponse, 0),
        (0x42, MessageType::WriteResponse, 0),
    ];
    for (tag, message_type, size) in tags {
        assert_eq!(MessageType::from(tag), message_type);
        assert_eq!(message_type.tag(), tag);
        let mut t = message_type;
        assert_eq!(t.content_size(), size);
    }
    assert_eq!(MessageType::from(0x00), MessageType::Error);
    assert_eq!(MessageType::from(0x07), MessageType::Error);
    assert_eq!(MessageType::from(0x40), MessageType::Error);
    assert_eq!(MessageType::from(0x47), MessageType::Error);
    assert_eq!(MessageType::from(0x43), MessageType::ReadProcResponse);
    assert_eq!(MessageType::from(0x46), MessageType::AckResponse);
    let mut error = MessageType::Error;
    assert_eq!(error.content_size(), 0);
}

#[test]
fn read_response_has_exact_bytes() {
    let key = [5u8; 32];
    let data = get_random_sector_vec(7);
    let response = OperationComplete {
        status_code: StatusCode::Success,
        request_identifier: 0x0102,
        op_return: OperationReturn::Read(ReadReturn { read_data: Some(data.clone()) }),
    };
    let mut sink: Vec<u8> = Vec::new();
    serialize_operation_complete_command(&response, &mut sink, &key).unwrap();
    let mut expected: Vec<u8> = vec![0x61, 0x74, 0x64, 0x64, 0, 0, 0, 0x41];
    expected.push(0);
    expected.extend_from_slice(&[0, 0, 0, 0, 0, 0, 1, 2]);
    expected.extend_from_slice(&data.0);
    let tag = hmac_of(&key, &expected);
    expected.extend_from_slice(&tag);
    assert_eq!(sink, expected);
}

#[test]
fn write_response_has_exact_bytes() {
    let key = [5u8; 32];
    let response = OperationComplete {
        status_code: StatusCode::Success,
        request_identifier: 3,
        op_return: OperationReturn::Write,
    };
    let mut sink: Vec<u8> = Vec::new();
    serialize_operation_complete_command(&response, &mut sink, &key).unwrap();
    let mut expected: Vec<u8> = vec![0x61, 0x74, 0x64, 0x64, 0, 0, 0, 0x42];
    expected.push(0);
    expected.extend_from_slice(&[0, 0, 0, 0, 0, 0, 0, 3]);
    let tag = hmac_of(&key, &expected);
    expected.extend_from_slice(&tag);
    assert_eq!(sink, expected);
    assert_eq!(sink.len(), 8 + 1 + 8 + 32);
}

#[test]
fn failed_responses_carry_their_status_and_no_sector() {
    let key = [5u8; 32];
    let statuses =
        [(StatusCode::AuthFailure, 1u8), (StatusCode::InvalidSectorIndex, 2), (StatusCode::Unknown, 3)];
    for (status, code) in statuses {
        assert_eq!(status.code(), code);
        let response = OperationComplete {
            status_code: status,
            request_identifier: 3,
            op_return: OperationReturn::Read(ReadReturn {
                read_data: Some(get_random_sector_vec(8)),
            }),
        };
        let mut sink: Vec<u8> = Vec::new();
        serialize_operation_complete_command(&response, &mut sink, &key).unwrap();
        assert_eq!(sink.len(), 8 + 1 + 8 + 32);
        assert_eq!(sink[7], 0x41);
        assert_eq!(sink[8], code);
        let none = OperationComplete {
            status_code: status,
            request_identifier: 3,
            op_return: OperationReturn::Read(ReadReturn { read_data: None }),
        };
        let mut other: Vec<u8> = Vec::new();
        serialize_operation_complete_command(&none, &mut other, &key).unwrap();
        assert_eq!(other, sink);
    }
    assert_eq!(StatusCode::Success.code(), 0);
}

#[test]
fn read_response_needs_its_sector() {
    let key = [5u8; 32];
    let missing = OperationComplete {
        status_code: StatusCode::Success,
        request_identifier: 3,
        op_return: OperationReturn::Read(ReadReturn { read_data: None }),
    };
    let mut sink: Vec<u8> = Vec::new();
    assert_eq!(
        serialize_operation_complete_command(&missing, &mut sink, &key),
        Err(TransferError::InvalidData)
    );
    let short = OperationComplete {
        status_code: StatusCode::Success,
        request_identifier: 3,
        op_return: OperationReturn::Read(ReadReturn { read_data: Some(SectorVec(vec![0; 10])) }),
    };
    assert_eq!(
        serialize_operation_complete_command(&short, &mut sink, &key),
        Err(TransferError::InvalidData)
    );
    assert!(sink.is_empty());
}

#[test]
fn deserialized_read_has_correct_format() {
    // given: a client read written byte by byte
    let key = [0x00_u8; 32];
    let mut frame: Vec<u8> = vec![0x61, 0x74, 0x64, 0x64, 0xaa, 0xbb, 0xcc, 0x01];
    frame.extend_from_slice(&7u64.to_be_bytes());
    frame.extend_from_slice(&8u64.to_be_bytes());
    let tag = hmac_of(&key, &frame);
    frame.extend_from_slice(&tag);

    // when
    let mut slice: &[u8] = &frame[..];
    let (cmd, hmac_valid) =
        deserialize_register_command(&mut slice, &[0x00_u8; 64], &key).expect("Could not deserialize");

    // then: the padding is skipped, and nothing is left
    assert!(hmac_valid);
    assert!(slice.is_empty());
    match cmd {
        RegisterCommand::Client(ClientRegisterCommand { header, content }) => {
            assert_eq!(header.request_identifier, 7);
            assert_eq!(header.sector_idx, 8);
            assert!(matches!(content, ClientRegisterCommandContent::Read));
        }
        _ => panic!("Expected Read command"),
    }
}
