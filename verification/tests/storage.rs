use atomic_register::storage::{get_hash, get_tmp_name, put_plan, StorageOp};
use sha2::{Digest, Sha256};
use std::collections::HashMap;

fn hex_upper(bytes: &[u8]) -> String {
    let digits = b"0123456789ABCDEF";
    let mut out = String::new();
    for b in bytes {
        out.push(digits[(b >> 4) as usize] as char);
        out.push(digits[(b & 0xf) as usize] as char);
    }
    out
}

/// Carries out the first `done` steps of a plan on a directory in memory.
fn carry_out(dir: &mut HashMap<String, Vec<u8>>, plan: &[StorageOp], done: usize) {
    for op in &plan[..done] {
        match op {
            StorageOp::WriteFile { name, data } => {
                dir.insert(name.clone(), data.clone());
            }
            StorageOp::Rename { from, to } => {
                if let Some(data) = dir.remove(from) {
                    dir.insert(to.clone(), data);
                }
            }
            StorageOp::SyncFile { .. } => {}
            StorageOp::SyncDir => {}
        }
    }
}

#[test]
fn the_name_of_a_key_is_its_sha256_in_upper_case() {
    assert_eq!(
        get_hash(""),
        "E3B0C44298FC1C149AFBF4C8996FB92427AE41E4649B934CA495991B7852B855"
    );
    assert_eq!(
        get_hash("abc"),
        "BA7816BF8F01CFEA414140DE5DAE2223B00361A396177A9CB410FF61F20015AD"
    );
    for key in ["rid", "0_0", "3_17", "a key with spaces", "zażółć"] {
        assert_eq!(get_hash(key), hex_upper(&Sha256::digest(key.as_bytes())));
        assert_eq!(get_hash(key).len(), 64);
        assert_eq!(get_tmp_name(key), String::from("tmp_") + &get_hash(key));
    }
    assert_ne!(get_hash("rid"), get_hash("rie"));
}

#[test]
fn a_put_is_write_sync_rename_sync() {
    let plan = put_plan("rid", &[1, 2, 3]);
    assert_eq!(plan.len(), 4);
    match &plan[0] {
        StorageOp::WriteFile { name, data } => {
            assert_eq!(name, &get_tmp_name("rid"));
            assert_eq!(data, &vec![1, 2, 3]);
        }
        _ => panic!("expected the write"),
    }
    match &plan[1] {
        StorageOp::SyncFile { name } => assert_eq!(name, &get_tmp_name("rid")),
        _ => panic!("expected the sync of the file"),
    }
    match &plan[2] {
        StorageOp::Rename { from, to } => {
            assert_eq!(from, &get_tmp_name("rid"));
            assert_eq!(to, &get_hash("rid"));
        }
        _ => panic!("expected the rename"),
    }
    assert!(matches!(plan[3], StorageOp::SyncDir));
}

#[test]
fn a_crash_leaves_the_old_value_or_the_new_one() {
    let mut dir: HashMap<String, Vec<u8>> = HashMap::new();
    let first = put_plan("key", &[1; 10]);
    carry_out(&mut dir, &first, 4);
    assert_eq!(dir.get(&get_hash("key")), Some(&vec![1; 10]));
    assert_eq!(dir.len(), 1);
    let other = put_plan("key2", &[7]);
    carry_out(&mut dir, &other, 4);
    let second = put_plan("key", &[2; 20]);
    for done in 0..=4 {
        let mut crashed = dir.clone();
        carry_out(&mut crashed, &second, done);
        let found = crashed.get(&get_hash("key")).cloned();
        if done < 3 {
            assert_eq!(found, Some(vec![1; 10]));
        } else {
            assert_eq!(found, Some(vec![2; 20]));
        }
        assert_eq!(crashed.get(&get_hash("key2")), Some(&vec![7]));
    }
    carry_out(&mut dir, &second, 4);
    assert_eq!(dir.len(), 2);
    assert!(!dir.contains_key(&get_tmp_name("key")));
}

#[test]
fn an_empty_value_can_be_put() {
    let mut dir: HashMap<String, Vec<u8>> = HashMap::new();
    carry_out(&mut dir, &put_plan("k", &[]), 4);
    assert_eq!(dir.get(&get_hash("k")), Some(&vec![]));
    assert_eq!(dir.get(&get_hash("absent")), None);
}
