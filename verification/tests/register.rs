use atomic_register::domain::{
    ClientCommandHeader, ClientRegisterCommand, ClientRegisterCommandContent, OperationComplete,
    OperationReturn, ReadReturn, SectorVec, StatusCode, SystemCommandHeader,
    SystemRegisterCommand, SystemRegisterCommandContent,
};
use atomic_register::register::{
    build_atomic_register, ended_phase, highest, rid_record, AtomicRegister, MyAtomicRegister,
    Phase, RegisterEffect, RegisterError, RID_KEY,
};
use std::collections::HashMap;

fn page(byte: u8) -> SectorVec {
    SectorVec(vec![byte; 4096])
}

fn read(request_identifier: u64, sector_idx: u64) -> ClientRegisterCommand {
    ClientRegisterCommand {
        header: ClientCommandHeader { request_identifier, sector_idx },
        content: ClientRegisterCommandContent::Read,
    }
}

fn write(request_identifier: u64, sector_idx: u64, byte: u8) -> ClientRegisterCommand {
    ClientRegisterCommand {
        header: ClientCommandHeader { request_identifier, sector_idx },
        content: ClientRegisterCommandContent::Write { data: page(byte) },
    }
}

fn system(
    from: u8,
    read_ident: u64,
    sector_idx: u64,
    content: SystemRegisterCommandContent,
) -> SystemRegisterCommand {
    SystemRegisterCommand {
        header: SystemCommandHeader {
            process_identifier: from,
            msg_ident: 42,
            read_ident,
            sector_idx,
        },
        content,
    }
}

fn value(from: u8, read_ident: u64, sector_idx: u64, ts: u64, wr: u8, byte: u8) -> SystemRegisterCommand {
    system(
        from,
        read_ident,
        sector_idx,
        SystemRegisterCommandContent::Value {
            timestamp: ts,
            write_rank: wr,
            sector_data: page(byte),
        },
    )
}

fn fresh(self_ident: u8, processes_count: usize) -> MyAtomicRegister {
    build_atomic_register(self_ident, None, processes_count)
}

fn sent_broadcast(effect: &RegisterEffect) -> SystemRegisterCommand {
    match effect {
        RegisterEffect::Broadcast(b) => (*b.cmd).clone(),
        _ => panic!("expected a broadcast"),
    }
}

fn sent_to(effect: &RegisterEffect) -> (usize, SystemRegisterCommand) {
    match effect {
        RegisterEffect::Send(s) => (s.target, (*s.cmd).clone()),
        _ => panic!("expected a send"),
    }
}

#[test]
fn client_read_stores_the_rid_and_asks_everyone() {
    let mut register = fresh(2, 3);
    let effects = register.client_command(read(77, 5)).unwrap();
    assert_eq!(effects.len(), 2);
    assert!(matches!(effects[0], RegisterEffect::StoreRid { rid: 1 }));
    let asked = sent_broadcast(&effects[1]);
    assert_eq!(asked.header.process_identifier, 2);
    assert_eq!(asked.header.read_ident, 1);
    assert_eq!(asked.header.sector_idx, 5);
    assert_eq!(asked.content, SystemRegisterCommandContent::ReadProc);

    assert!(register.is_pending());
}

#[test]
fn a_command_is_refused_while_a_client_waits() {
    // one process: its own answers are a majority
    let mut register = fresh(1, 1);
    register.recover_sector(6, 0, 0);
    let started = register.client_command(read(77, 6)).unwrap();
    assert_eq!(ended_phase(&started), None);
    // a write comes while the read waits: it is refused, and nothing changes
    assert_eq!(register.client_command(write(78, 6, 9)).err(), Some(RegisterError::Busy));
    assert_eq!(register.apply_client_command(write(78, 6, 9), 5).err(), Some(RegisterError::Busy));
    assert!(register.is_pending());
    // the read goes on and gets its own answer
    let effects = register.system_command(value(1, 1, 6, 0, 0, 0), Some(page(0))).unwrap();
    assert_eq!(ended_phase(&effects), Some(Phase::Read));
    assert_eq!(effects.len(), 1);
    let imposed = sent_broadcast(&effects[0]);
    assert_eq!(imposed.header.read_ident, 1);
    assert!(register.system_command(imposed, None).is_ok());
    let effects =
        register.system_command(system(1, 1, 6, SystemRegisterCommandContent::Ack), None).unwrap();
    assert_eq!(ended_phase(&effects), Some(Phase::Write));
    match &effects[0] {
        RegisterEffect::Complete(op) => assert_eq!(
            op,
            &OperationComplete {
                status_code: StatusCode::Success,
                request_identifier: 77,
                op_return: OperationReturn::Read(ReadReturn { read_data: Some(page(0)) }),
            }
        ),
        _ => panic!("expected the answer"),
    }
    // now the register is idle, and the write is taken
    assert!(!register.is_pending());
    let effects = register.client_command(write(78, 6, 9)).unwrap();
    assert!(matches!(effects[0], RegisterEffect::StoreRid { rid: 2 }));
    assert_eq!(sent_broadcast(&effects[1]).header.read_ident, 2);
    let effects = register.system_command(value(1, 2, 6, 0, 0, 0), Some(page(0))).unwrap();
    assert_eq!(ended_phase(&effects), Some(Phase::Read));
    match &effects[0] {
        RegisterEffect::StoreSector { sector_idx, sector } => {
            assert_eq!(*sector_idx, 6);
            assert_eq!(sector, &(page(9), 1, 1));
        }
        _ => panic!("expected a store"),
    }
    let effects =
        register.system_command(system(1, 2, 6, SystemRegisterCommandContent::Ack), None).unwrap();
    match &effects[0] {
        RegisterEffect::Complete(op) => assert_eq!(
            op,
            &OperationComplete {
                status_code: StatusCode::Success,
                request_identifier: 78,
                op_return: OperationReturn::Write,
            }
        ),
        _ => panic!("expected the answer"),
    }
}

#[test]
fn the_rid_goes_on_from_what_was_stored() {
    assert_eq!(RID_KEY, "rid");
    assert_eq!(rid_record(0x0102), [0, 0, 0, 0, 0, 0, 1, 2]);
    let mut register = build_atomic_register(1, Some(rid_record(41).to_vec()), 1);
    let effects = register.client_command(read(1, 0)).unwrap();
    assert!(matches!(effects[0], RegisterEffect::StoreRid { rid: 42 }));
}

#[test]
fn the_rid_does_not_wrap() {
    let mut register = build_atomic_register(1, Some(vec![0xff; 8]), 1);
    assert_eq!(register.client_command(read(1, 0)).err(), Some(RegisterError::RidExhausted));
    assert_eq!(register.apply_client_command(read(1, 0), 5).err(), Some(RegisterError::RidExhausted));
}

#[test]
fn messages_get_fresh_identifiers() {
    let first = sent_broadcast(&fresh(1, 3).client_command(read(1, 0)).unwrap()[1]);
    let second = sent_broadcast(&fresh(1, 3).client_command(read(2, 0)).unwrap()[1]);
    assert_ne!(first.header.msg_ident, second.header.msg_ident);
    let given = sent_broadcast(&fresh(1, 3).apply_client_command(read(3, 0), 1234).unwrap()[1]);
    assert_eq!(given.header.msg_ident, 1234);
}

#[test]
fn a_sector_must_be_recovered_first() {
    let mut register = fresh(1, 3);
    assert!(!register.is_recovered(5));
    let ask = system(2, 9, 5, SystemRegisterCommandContent::ReadProc);
    assert_eq!(
        register.system_command(ask.clone(), Some(page(0))).err(),
        Some(RegisterError::NotRecovered)
    );
    register.recover_sector(5, 3, 2);
    assert!(register.is_recovered(5));
    assert!(!register.is_recovered(6));
    assert!(register.system_command(ask, Some(page(0))).is_ok());
}

#[test]
fn recovery_happens_once() {
    let mut register = fresh(1, 3);
    register.recover_sector(5, 3, 2);
    register.recover_sector(5, 100, 100);
    let ask = system(2, 9, 5, SystemRegisterCommandContent::ReadProc);
    let effects = register.system_command(ask, Some(page(7))).unwrap();
    let (_, answer) = sent_to(&effects[0]);
    assert_eq!(
        answer.content,
        SystemRegisterCommandContent::Value { timestamp: 3, write_rank: 2, sector_data: page(7) }
    );
}

#[test]
fn read_proc_is_answered_with_what_is_held() {
    let mut register = fresh(3, 5);
    register.recover_sector(8, 11, 4);
    let ask = system(2, 9, 8, SystemRegisterCommandContent::ReadProc);
    assert!(register.needs_sector_data(&ask));
    assert_eq!(
        register.system_command(ask.clone(), None).err(),
        Some(RegisterError::MissingSector)
    );
    let effects = register.system_command(ask, Some(page(6))).unwrap();
    assert_eq!(effects.len(), 1);
    let (target, answer) = sent_to(&effects[0]);
    assert_eq!(target, 2);
    assert_eq!(answer.header.process_identifier, 3);
    assert_eq!(answer.header.read_ident, 9);
    assert_eq!(answer.header.sector_idx, 8);
    assert_eq!(
        answer.content,
        SystemRegisterCommandContent::Value { timestamp: 11, write_rank: 4, sector_data: page(6) }
    );
}

#[test]
fn write_proc_replaces_only_what_is_earlier() {
    let mut register = fresh(3, 5);
    register.recover_sector(8, 11, 4);
    let imposed = |ts: u64, wr: u8, byte: u8| {
        system(
            2,
            9,
            8,
            SystemRegisterCommandContent::WriteProc {
                timestamp: ts,
                write_rank: wr,
                data_to_write: page(byte),
            },
        )
    };
    // earlier timestamp, equal stamp, lower rank at the same timestamp: only the Ack
    for (ts, wr) in [(10u64, 200u8), (11, 4), (11, 3), (0, 0)] {
        let msg = imposed(ts, wr, 1);
        assert!(!register.needs_sector_data(&msg));
        let effects = register.system_command(msg, None).unwrap();
        assert_eq!(effects.len(), 1);
        let (target, ack) = sent_to(&effects[0]);
        assert_eq!(target, 2);
        assert_eq!(ack.content, SystemRegisterCommandContent::Ack);
        assert_eq!(ack.header.read_ident, 9);
    }
    // higher rank at the same timestamp: stored, then acknowledged
    let effects = register.system_command(imposed(11, 5, 2), None).unwrap();
    assert_eq!(effects.len(), 2);
    match &effects[0] {
        RegisterEffect::StoreSector { sector_idx, sector } => {
            assert_eq!(*sector_idx, 8);
            assert_eq!(sector, &(page(2), 11, 5));
        }
        _ => panic!("expected a store"),
    }
    assert_eq!(sent_to(&effects[1]).1.content, SystemRegisterCommandContent::Ack);
    // later timestamp
    let effects = register.system_command(imposed(12, 1, 3), None).unwrap();
    assert_eq!(effects.len(), 2);
    // and now (11, 5) is earlier
    let effects = register.system_command(imposed(11, 5, 2), None).unwrap();
    assert_eq!(effects.len(), 1);
    // what is held is what a ReadProc is answered with
    let ask = system(4, 1, 8, SystemRegisterCommandContent::ReadProc);
    let effects = register.system_command(ask, Some(page(3))).unwrap();
    assert_eq!(
        sent_to(&effects[0]).1.content,
        SystemRegisterCommandContent::Value { timestamp: 12, write_rank: 1, sector_data: page(3) }
    );
}

#[test]
fn a_read_imposes_the_latest_answer() {
    let mut register = fresh(1, 3);
    register.recover_sector(8, 5, 1);
    register.client_command(read(70, 8)).unwrap();
    // stale and foreign answers do not count
    assert!(register.system_command(value(2, 0, 8, 9, 9, 9), None).unwrap().is_empty());
    assert!(register.system_command(value(2, 2, 8, 9, 9, 9), None).unwrap().is_empty());
    // first answer: one of three is no majority
    let first = value(2, 1, 8, 7, 2, 0x22);
    assert!(!register.needs_sector_data(&first));
    assert!(register.system_command(first, None).unwrap().is_empty());
    // the same process again: still one of three
    let again = value(2, 1, 8, 7, 2, 0x22);
    assert!(!register.needs_sector_data(&again));
    assert!(register.system_command(again, None).unwrap().is_empty());
    // second process: majority
    let second = value(3, 1, 8, 7, 3, 0x33);
    assert!(register.needs_sector_data(&second));
    assert_eq!(
        register.system_command(second.clone(), None).err(),
        Some(RegisterError::MissingSector)
    );
    let effects = register.system_command(second, Some(page(0x11))).unwrap();
    assert_eq!(effects.len(), 1);
    let imposed = sent_broadcast(&effects[0]);
    assert_eq!(imposed.header.read_ident, 1);
    assert_eq!(imposed.header.sector_idx, 8);
    assert_eq!(
        imposed.content,
        SystemRegisterCommandContent::WriteProc {
            timestamp: 7,
            write_rank: 3,
            data_to_write: page(0x33)
        }
    );
    // the read phase is over: a late answer does not count
    assert!(register.system_command(value(1, 1, 8, 99, 9, 9), None).unwrap().is_empty());
    // the write phase needs a majority of acknowledgements
    let ack = |from: u8, rid: u64| system(from, rid, 8, SystemRegisterCommandContent::Ack);
    assert!(register.system_command(ack(2, 0), None).unwrap().is_empty());
    assert!(register.system_command(ack(2, 1), None).unwrap().is_empty());
    assert!(register.system_command(ack(2, 1), None).unwrap().is_empty());
    let effects = register.system_command(ack(1, 1), None).unwrap();
    assert_eq!(effects.len(), 1);
    match &effects[0] {
        RegisterEffect::Complete(op) => assert_eq!(
            op,
            &OperationComplete {
                status_code: StatusCode::Success,
                request_identifier: 70,
                op_return: OperationReturn::Read(ReadReturn { read_data: Some(page(0x33)) }),
            }
        ),
        _ => panic!("expected the answer"),
    }
    // the answer comes once
    assert!(register.system_command(ack(3, 1), None).unwrap().is_empty());
}

#[test]
fn a_write_stores_before_it_imposes() {
    let mut register = fresh(2, 3);
    register.recover_sector(8, 5, 1);
    register.client_command(write(71, 8, 0xab)).unwrap();
    assert!(register.system_command(value(1, 1, 8, 9, 3, 0x22), None).unwrap().is_empty());
    let effects = register.system_command(value(3, 1, 8, 6, 3, 0x33), Some(page(0x11))).unwrap();
    assert_eq!(effects.len(), 2);
    match &effects[0] {
        RegisterEffect::StoreSector { sector_idx, sector } => {
            assert_eq!(*sector_idx, 8);
            assert_eq!(sector, &(page(0xab), 10, 2));
        }
        _ => panic!("expected a store"),
    }
    assert_eq!(
        sent_broadcast(&effects[1]).content,
        SystemRegisterCommandContent::WriteProc {
            timestamp: 10,
            write_rank: 2,
            data_to_write: page(0xab)
        }
    );
    let ack = |from: u8| system(from, 1, 8, SystemRegisterCommandContent::Ack);
    assert!(register.system_command(ack(3), None).unwrap().is_empty());
    let effects = register.system_command(ack(2), None).unwrap();
    match &effects[0] {
        RegisterEffect::Complete(op) => assert_eq!(
            op,
            &OperationComplete {
                status_code: StatusCode::Success,
                request_identifier: 71,
                op_return: OperationReturn::Write,
            }
        ),
        _ => panic!("expected the answer"),
    }
}

#[test]
fn a_write_finds_no_timestamp_beyond_u64() {
    let mut register = fresh(1, 1);
    register.recover_sector(8, u64::MAX, 1);
    register.client_command(write(71, 8, 0xab)).unwrap();
    let own = value(1, 1, 8, u64::MAX, 1, 0x11);
    assert_eq!(
        register.system_command(own, Some(page(0x11))).err(),
        Some(RegisterError::TimestampExhausted)
    );
    // a read of the same sector has no such need
    let mut reader = fresh(1, 1);
    reader.recover_sector(8, u64::MAX, 1);
    reader.client_command(read(72, 8)).unwrap();
    let own = value(1, 1, 8, u64::MAX, 1, 0x11);
    assert_eq!(reader.system_command(own, Some(page(0x11))).unwrap().len(), 1);
}

#[test]
fn without_a_client_nothing_is_imposed() {
    let mut register = fresh(1, 1);
    register.recover_sector(8, 0, 0);
    // rid 0, nobody reads or writes: the answer is noted and that is all
    let stray = value(1, 0, 8, 3, 1, 0x11);
    assert!(!register.needs_sector_data(&stray));
    assert!(register.system_command(stray, None).unwrap().is_empty());
}

#[test]
fn highest_takes_the_latest_and_breaks_ties_by_rank() {
    let mut answers: HashMap<u8, (u64, u8, SectorVec)> = HashMap::new();
    assert_eq!(highest(&answers), (0, 0, page(0)));
    answers.insert(4, (0, 0, page(9)));
    // nothing is later than a sector that was never written
    assert_eq!(highest(&answers), (0, 0, page(0)));
    answers.insert(1, (3, 1, page(1)));
    answers.insert(2, (3, 2, page(2)));
    answers.insert(3, (2, 200, page(3)));
    assert_eq!(highest(&answers), (3, 2, page(2)));
    answers.insert(255, (3, 2, page(5)));
    // of two answers with one stamp the lower rank is taken
    assert_eq!(highest(&answers), (3, 2, page(2)));
    answers.insert(0, (4, 0, page(6)));
    assert_eq!(highest(&answers), (4, 0, page(6)));
}

#[test]
fn a_register_is_busy_until_it_has_answered() {
    let mut register = fresh(1, 1);
    register.recover_sector(8, 0, 0);
    assert!(!register.is_pending());
    register.client_command(write(71, 8, 0xab)).unwrap();
    assert!(register.is_pending());
    let effects = register.system_command(value(1, 1, 8, 0, 0, 0), Some(page(0))).unwrap();
    assert_eq!(effects.len(), 2);
    assert!(register.is_pending());
    let ack = system(1, 1, 8, SystemRegisterCommandContent::Ack);
    let effects = register.system_command(ack, None).unwrap();
    assert!(matches!(effects[0], RegisterEffect::Complete(_)));
    assert!(!register.is_pending());
}
