use atomic_register::client::{fan_out, route, Route};
use atomic_register::domain::{
    ClientCommandHeader, ClientRegisterCommand, ClientRegisterCommandContent, OperationComplete,
    OperationReturn, ReadReturn, SectorVec, StatusCode, SystemRegisterCommand,
};
use atomic_register::register::{
    build_atomic_register, AtomicRegister, rid_record, MyAtomicRegister, RegisterEffect,
};
use atomic_register::sectors::{encode_sector, get_filename_from_idx, read_data, read_metadata};
use std::collections::{HashMap, HashSet, VecDeque};

struct Process {
    rank: u8,
    register: MyAtomicRegister,
    disk: HashMap<String, Vec<u8>>,
    rid: Option<Vec<u8>>,
}

struct Cluster {
    processes: Vec<Process>,
    network: VecDeque<(usize, SystemRegisterCommand)>,
    isolated: HashSet<usize>,
    answers: Vec<(u8, OperationComplete)>,
    stop_before_sending: bool,
}

fn page(byte: u8) -> SectorVec {
    SectorVec(vec![byte; 4096])
}

fn cluster(n: usize) -> Cluster {
    let mut processes = Vec::new();
    for rank in 1..=n {
        processes.push(Process {
            rank: rank as u8,
            register: build_atomic_register(rank as u8, None, n),
            disk: HashMap::new(),
            rid: None,
        });
    }
    Cluster {
        processes,
        network: VecDeque::new(),
        isolated: HashSet::new(),
        answers: Vec::new(),
        stop_before_sending: false,
    }
}

fn restart(cluster: &mut Cluster, rank: usize) {
    let n = cluster.processes.len();
    let process = &mut cluster.processes[rank - 1];
    process.register = build_atomic_register(rank as u8, process.rid.clone(), n);
}

fn recover(process: &mut Process, sector_idx: u64) -> Option<Vec<u8>> {
    let file = process.disk.get(&get_filename_from_idx(sector_idx)).cloned();
    if !process.register.is_recovered(sector_idx) {
        let (ts, wr) = read_metadata(&file);
        process.register.recover_sector(sector_idx, ts, wr);
    }
    file
}

fn perform(cluster: &mut Cluster, rank: usize, effects: Vec<RegisterEffect>) {
    let n = cluster.processes.len();
    for effect in effects {
        match effect {
            RegisterEffect::StoreRid { rid } => {
                cluster.processes[rank - 1].rid = Some(rid_record(rid).to_vec());
            }
            RegisterEffect::StoreSector { sector_idx, sector } => {
                let record = encode_sector(&sector);
                cluster.processes[rank - 1].disk.insert(get_filename_from_idx(sector_idx), record);
                if cluster.stop_before_sending {
                    return;
                }
            }
            RegisterEffect::Broadcast(broadcast) => {
                for send in fan_out(&broadcast, n) {
                    assert_ne!(route(send.target, rank as u8, n), Route::Nowhere);
                    cluster.network.push_back((send.target, (*send.cmd).clone()));
                }
            }
            RegisterEffect::Send(send) => {
                cluster.network.push_back((send.target, (*send.cmd).clone()));
            }
            RegisterEffect::Complete(op) => {
                cluster.answers.push((rank as u8, op));
            }
        }
    }
}

fn client(cluster: &mut Cluster, rank: usize, cmd: ClientRegisterCommand) {
    recover(&mut cluster.processes[rank - 1], cmd.header.sector_idx);
    let effects = cluster.processes[rank - 1].register.client_command(cmd).unwrap();
    perform(cluster, rank, effects);
}

fn deliver(cluster: &mut Cluster, to: usize, cmd: SystemRegisterCommand) {
    let from = cmd.header.process_identifier as usize;
    if cluster.isolated.contains(&to) || cluster.isolated.contains(&from) {
        if to != from {
            return;
        }
    }
    let process = &mut cluster.processes[to - 1];
    assert_eq!(process.rank as usize, to);
    let file = recover(process, cmd.header.sector_idx);
    let stored =
        if process.register.needs_sector_data(&cmd) { Some(read_data(&file)) } else { None };
    let effects = process.register.system_command(cmd, stored).unwrap();
    perform(cluster, to, effects);
}

/// Delivers what is in the network until nothing is left. `pick` chooses
/// which message goes next.
fn run(cluster: &mut Cluster, seed: u64) {
    let mut state = seed;
    while !cluster.network.is_empty() {
        state = state.wrapping_mul(6364136223846793005).wrapping_add(1442695040888963407);
        let at = if seed == 0 { 0 } else { ((state >> 33) as usize) % cluster.network.len() };
        let (to, cmd) = cluster.network.remove(at).unwrap();
        deliver(cluster, to, cmd);
    }
}

fn read(request_identifier: u64, sector_idx: u64) -> ClientRegisterCommand {
    ClientRegisterCommand {
        header: ClientCommandHeader { request_identifier, sector_idx },
        content: ClientRegisterCommandContent::Read,
    }
}

fn write(request_identifier: u64, sector_idx: u64, byte: u8) -> ClientRegisterCommand {
    ClientRegisterCommand {
        header: ClientCommandHeader { request_identifier, sector_idx },
        content: ClientRegisterCommandContent::Write { data: page(byte) },
    }
}

fn read_answer(request_identifier: u64, byte: u8) -> OperationComplete {
    OperationComplete {
        status_code: StatusCode::Success,
        request_identifier,
        op_return: OperationReturn::Read(ReadReturn { read_data: Some(page(byte)) }),
    }
}

fn write_answer(request_identifier: u64) -> OperationComplete {
    OperationComplete {
        status_code: StatusCode::Success,
        request_identifier,
        op_return: OperationReturn::Write,
    }
}

#[test]
fn single_process_write_then_read() {
    let mut c = cluster(1);
    client(&mut c, 1, write(1234, 0, 0x01));
    run(&mut c, 0);
    assert_eq!(c.answers, vec![(1, write_answer(1234))]);
    client(&mut c, 1, read(1235, 0));
    run(&mut c, 0);
    assert_eq!(c.answers[1], (1, read_answer(1235, 0x01)));
    assert_eq!(c.answers.len(), 2);
}

#[test]
fn a_sector_that_was_never_written_reads_as_zeros() {
    let mut c = cluster(3);
    client(&mut c, 2, read(1, 19));
    run(&mut c, 0);
    assert_eq!(c.answers, vec![(2, read_answer(1, 0))]);
}

#[test]
fn concurrent_writes_both_complete_and_reads_agree() {
    for seed in 0..40u64 {
        let mut c = cluster(3);
        client(&mut c, 1, write(1, 5, 0x02));
        client(&mut c, 2, write(2, 5, 0x03));
        run(&mut c, seed);
        let mut done: Vec<u64> = c.answers.iter().map(|(_, op)| op.request_identifier).collect();
        done.sort();
        assert_eq!(done, vec![1, 2], "seed {}", seed);
        c.answers.clear();
        client(&mut c, 3, read(3, 5));
        run(&mut c, seed);
        let first = match &c.answers[0].1.op_return {
            OperationReturn::Read(ReadReturn { read_data: Some(SectorVec(d)) }) => d[0],
            _ => panic!("expected a read"),
        };
        assert!(first == 0x02 || first == 0x03, "seed {}", seed);
        for (rank, request) in [(1usize, 4u64), (2, 5), (3, 6)] {
            c.answers.clear();
            client(&mut c, rank, read(request, 5));
            run(&mut c, seed + 100);
            assert_eq!(c.answers, vec![(rank as u8, read_answer(request, first))], "seed {}", seed);
        }
    }
}

#[test]
fn a_write_completes_with_a_majority_and_the_rest_catches_up() {
    let mut c = cluster(3);
    c.isolated.insert(3);
    client(&mut c, 1, write(1, 7, 0x44));
    run(&mut c, 0);
    assert_eq!(c.answers, vec![(1, write_answer(1))]);
    assert!(c.processes[2].disk.is_empty());
    // the isolated process is back and is asked itself
    c.isolated.clear();
    c.answers.clear();
    client(&mut c, 3, read(2, 7));
    run(&mut c, 0);
    assert_eq!(c.answers, vec![(3, read_answer(2, 0x44))]);
    // the read has imposed the value on the process that had missed it
    let file = c.processes[2].disk.get(&get_filename_from_idx(7)).cloned();
    assert_eq!(read_metadata(&file), (1, 1));
    assert_eq!(read_data(&file), page(0x44));
}

#[test]
fn nothing_completes_without_a_majority() {
    let mut c = cluster(3);
    c.isolated.insert(2);
    c.isolated.insert(3);
    client(&mut c, 1, write(1, 7, 0x44));
    run(&mut c, 0);
    assert!(c.answers.is_empty());
}

#[test]
fn a_restarted_process_reads_what_it_had_stored() {
    let mut c = cluster(1);
    client(&mut c, 1, write(1, 3, 0x10));
    run(&mut c, 0);
    // the second write is stored, and the process dies before it sends anything
    c.stop_before_sending = true;
    client(&mut c, 1, write(2, 3, 0x20));
    run(&mut c, 0);
    assert_eq!(c.answers, vec![(1, write_answer(1))]);
    c.network.clear();
    c.stop_before_sending = false;
    restart(&mut c, 1);
    c.answers.clear();
    client(&mut c, 1, read(3, 3));
    run(&mut c, 0);
    assert_eq!(c.answers, vec![(1, read_answer(3, 0x20))]);
    // the read identifier went on from what was stored
    assert_eq!(c.processes[0].rid, Some(rid_record(3).to_vec()));
}

#[test]
fn an_acknowledged_write_survives_the_restart_of_everyone() {
    let mut c = cluster(3);
    client(&mut c, 2, write(1, 11, 0x77));
    run(&mut c, 5);
    assert_eq!(c.answers, vec![(2, write_answer(1))]);
    for rank in 1..=3 {
        restart(&mut c, rank);
    }
    c.answers.clear();
    client(&mut c, 3, read(2, 11));
    run(&mut c, 6);
    assert_eq!(c.answers, vec![(3, read_answer(2, 0x77))]);
}

#[test]
fn reads_never_go_back() {
    // Writes of 1, 2, 3, ... one after the other from changing processes,
    // under changing orders of delivery; every read sees the last write.
    for seed in 1..20u64 {
        let mut c = cluster(5);
        for round in 1..=6u64 {
            let writer = (round as usize % 5) + 1;
            let reader = ((round as usize + 2) % 5) + 1;
            c.answers.clear();
            client(&mut c, writer, write(round * 2, 9, round as u8));
            run(&mut c, seed * 31 + round);
            assert_eq!(c.answers, vec![(writer as u8, write_answer(round * 2))]);
            c.answers.clear();
            client(&mut c, reader, read(round * 2 + 1, 9));
            run(&mut c, seed * 17 + round);
            assert_eq!(c.answers, vec![(reader as u8, read_answer(round * 2 + 1, round as u8))]);
        }
    }
}

#[test]
fn sectors_are_independent() {
    let mut c = cluster(3);
    client(&mut c, 1, write(1, 0, 0xaa));
    run(&mut c, 3);
    client(&mut c, 1, write(2, 4, 0xbb));
    run(&mut c, 3);
    c.answers.clear();
    client(&mut c, 2, read(3, 0));
    run(&mut c, 3);
    client(&mut c, 2, read(4, 4));
    run(&mut c, 3);
    client(&mut c, 2, read(5, 8));
    run(&mut c, 3);
    assert_eq!(
        c.answers,
        vec![(2, read_answer(3, 0xaa)), (2, read_answer(4, 0xbb)), (2, read_answer(5, 0))]
    );
}

#[test]
fn write_and_read_on_the_same_sector() {
    // given
    let mut c = cluster(1);

    // when
    client(
        &mut c,
        1,
        ClientRegisterCommand {
            header: ClientCommandHeader { request_identifier: 1234, sector_idx: 0 },
            content: ClientRegisterCommandContent::Write { data: SectorVec(vec![1; 4096]) },
        },
    );
    run(&mut c, 0);

    // then
    assert_eq!(c.answers.len(), 1);
    assert_eq!(c.answers[0].1.request_identifier, 1234);
    assert_eq!(c.answers[0].1.status_code, StatusCode::Success);

    client(
        &mut c,
        1,
        ClientRegisterCommand {
            header: ClientCommandHeader { request_identifier: 1235, sector_idx: 0 },
            content: ClientRegisterCommandContent::Read,
        },
    );
    run(&mut c, 0);
    match &c.answers[1].1.op_return {
        OperationReturn::Read(ReadReturn { read_data: Some(SectorVec(sector)) }) => {
            assert!(sector == &vec![1; 4096] || sector == &vec![254; 4096]);
        }
        _ => panic!("Expected read response"),
    }
}
